use phashgen::pearson::PearsonHashFunction;
use phashgen::rng::DotNetRandom;
use phashgen::search::{attempt_build, search_tables, aux1_org, aux2_org, tab_org, HASH_MASK,
    HASH_TABLE_RANDOM_SEED};
use phashgen::word::Word;

fn word(name: &str, nfa: u16) -> Word {
    Word { name: name.as_bytes().to_vec(), nfa, next_word_addr: 0 }
}

#[test]
fn four_words_place_with_the_production_seed() {
    let words = vec![word("DUP", 0x100), word("DROP", 0x110), word("SWAP", 0x120), word(
        "OVER",
        0x130,
    )];
    let mut rng = DotNetRandom::new(HASH_TABLE_RANDOM_SEED);
    let mut phf1 = PearsonHashFunction::new(&mut rng);
    let mut phf2 = PearsonHashFunction::new(&mut rng);
    let table = search_tables(&words, &mut rng, &mut phf1, &mut phf2, HASH_MASK, 1000)
        .expect("a placement exists for four words");
    assert_eq!(table.count(), 4);
    assert_eq!(table.num_values_at_first() + table.num_values_at_second(), 4);
}

#[test]
fn search_is_reproducible_for_a_seed() {
    let words = vec![word("ONE", 1), word("TWO", 2), word("THREE", 3)];
    let mut out: Vec<(Vec<u8>, Vec<u8>)> = Vec::new();
    for _ in 0..2 {
        let mut rng = DotNetRandom::new(777);
        let mut phf1 = PearsonHashFunction::new(&mut rng);
        let mut phf2 = PearsonHashFunction::new(&mut rng);
        search_tables(&words, &mut rng, &mut phf1, &mut phf2, HASH_MASK, 1000).expect("placement");
        out.push((phf1.aux_table().clone(), phf2.aux_table().clone()));
    }
    assert_eq!(out[0], out[1]);
}

#[test]
fn a_larger_dictionary_still_places() {
    let names = [
        "DUP", "DROP", "SWAP", "OVER", "ROT", "NIP", "TUCK", "PICK", "ROLL", "DEPTH", "CELLS",
        "CHAR", "EMIT", "TYPE", "WORDS", "FIND", "ALLOT", "HERE", "FETCH", "STORE", "PLUS",
        "MINUS", "STAR", "SLASH", "MOD", "NEGATE", "ABS", "MIN", "MAX", "AND", "OR", "XOR",
    ];
    let mut words = Vec::new();
    for (i, n) in names.iter().enumerate() {
        words.push(word(n, 0x200 + (i as u16) * 0x10));
    }
    let mut rng = DotNetRandom::new(HASH_TABLE_RANDOM_SEED);
    let mut phf1 = PearsonHashFunction::new(&mut rng);
    let mut phf2 = PearsonHashFunction::new(&mut rng);
    let table = search_tables(&words, &mut rng, &mut phf1, &mut phf2, HASH_MASK, 10000)
        .expect("a placement exists");
    assert_eq!(table.count(), names.len());
    assert_eq!(
        table.num_values_at_first() + table.num_values_at_second(),
        names.len()
    );
}

#[test]
fn attempt_build_reports_an_unplaceable_set() {
    // three words with identical names hash identically, so at most two can
    // ever be placed: every attempt must fail
    let words = vec![word("SAME", 1), word("SAME", 2), word("SAME", 3)];
    let mut rng = DotNetRandom::new(1);
    let phf1 = PearsonHashFunction::new(&mut rng);
    let phf2 = PearsonHashFunction::new(&mut rng);
    assert!(attempt_build(&words, &phf1, &phf2, HASH_MASK).is_none());
    let mut rng2 = DotNetRandom::new(1);
    let mut p1 = PearsonHashFunction::new(&mut rng2);
    let mut p2 = PearsonHashFunction::new(&mut rng2);
    assert!(search_tables(&words, &mut rng2, &mut p1, &mut p2, HASH_MASK, 25).is_err());
}

#[test]
fn emission_addresses_follow_the_layout() {
    assert_eq!(tab_org(), 0x8000 - 2048);
    assert_eq!(aux2_org(), 0x8000 - 2048 - 256);
    assert_eq!(aux1_org(), 0x8000 - 2048 - 512);
}
