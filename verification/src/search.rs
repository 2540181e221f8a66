//! Table-search orchestrator.
//!
//! One attempt builds a fresh cuckoo table and inserts every dictionary word
//! in order.  On any failed insertion the attempt is abandoned, both
//! permutation tables are reshuffled, and the search starts over.  Verified
//! loops must terminate, so the retry loop here takes an explicit attempt
//! bound; a caller that wants the unbounded legacy behavior re-invokes it.

use vstd::prelude::*;
use vstd::string::StringExecFns;
use crate::cuckoo::{CuckooHashTable, add_ok, chain_apply, placement_chain};
use crate::errors::usize_to_string;
use crate::errors::ToolLibError;
use crate::pearson::{DotNetRand, PearsonHashFunction, AUX_TABLE_SIZE, hash_name,
    hash_name_swapped};
use crate::rom::ROM_SIZE;
use crate::word::Word;

verus! {

/// Number of slots of the production hash table.
pub const HASH_TABLE_SIZE: usize = 1024;

/// Mask confining a combined hash to the table's address space.
pub const HASH_MASK: u16 = 1023;

/// Seed of the deterministic sequence that drives the table search.
pub const HASH_TABLE_RANDOM_SEED: i32 = 135960;


/// The two slot indices of a word under the pair of tables: hash forward,
/// then with the tables' roles swapped.
pub open spec fn word_slots(w: Word, t1: Seq<u8>, t2: Seq<u8>, mask: u16) -> (u16, u16) {
    let b = crate::pearson::upper_bytes(w.name@);
    (
        crate::pearson::combine_hashes(
            crate::pearson::pearson_fold(t1, b, 0),
            crate::pearson::pearson_fold(t2, b, 0),
            mask,
        ),
        crate::pearson::combine_hashes(
            crate::pearson::pearson_fold(t2, b, 0),
            crate::pearson::pearson_fold(t1, b, 0),
            mask,
        ),
    )
}

/// Whether inserting the words from index `i` on, in order, succeeds
/// against a table with preference map `p`: each insertion must find a
/// displacement chain, and threads the preference map for the next.
pub open spec fn build_ok(
    p: Map<u16, (u16, u16)>,
    words: Seq<Word>,
    t1: Seq<u8>,
    t2: Seq<u8>,
    mask: u16,
    i: int,
) -> bool
    decreases words.len() - i,
{
    if i < 0 || i >= words.len() {
        true
    } else {
        let hs = word_slots(words[i], t1, t2, mask);
        &&& add_ok(p, hs.0, hs.1)
        &&& build_ok(
            chain_apply(p, placement_chain(p, hs.0, hs.1), hs),
            words,
            t1,
            t2,
            mask,
            i + 1,
        )
    }
}

/// The table holds an entry with this word's name at the word's first- or
/// second-preference slot.
pub open spec fn word_placed(
    t: CuckooHashTable<Word>,
    w: Word,
    t1: Seq<u8>,
    t2: Seq<u8>,
    mask: u16,
) -> bool {
    exists|k: u16|
        {
            &&& t.contents().dom().contains(k)
            &&& (#[trigger] t.contents()[k]).name@ == w.name@
            &&& (k == word_slots(w, t1, t2, mask).0 || k == word_slots(w, t1, t2, mask).1)
        }
}

/// Every word of the list sits at one of its two preferred slots.
pub open spec fn words_placed(
    t: CuckooHashTable<Word>,
    words: Seq<Word>,
    t1: Seq<u8>,
    t2: Seq<u8>,
    mask: u16,
) -> bool {
    forall|i: int|
        0 <= i < words.len() ==> word_placed(t, #[trigger] words[i], t1, t2, mask)
}

/// One search attempt: build a fresh table and insert every word, first
/// hash forward, second swapped.  Returns the table only if every word
/// found a slot.
pub fn attempt_build(
    words: &Vec<Word>,
    phf1: &PearsonHashFunction,
    phf2: &PearsonHashFunction,
    mask: u16,
) -> (r: Option<CuckooHashTable<Word>>)
    requires
        phf1.wf(),
        phf2.wf(),
    ensures
        r is Some <==> build_ok(
            Map::<u16, (u16, u16)>::empty(),
            words@,
            phf1.table(),
            phf2.table(),
            mask,
            0,
        ),
        r matches Some(t) ==> {
            &&& t.wf()
            &&& t.count_spec() == words@.len()
            &&& t.firsts() + t.seconds() == words@.len()
            &&& forall|i: int|
                0 <= i < words@.len() ==> (#[trigger] t.values()[i]).name@ == words@[i].name@
            &&& words_placed(t, words@, phf1.table(), phf2.table(), mask)
        },
{
    let ghost t1 = phf1.table();
    let ghost t2 = phf2.table();
    let ghost goal = build_ok(Map::<u16, (u16, u16)>::empty(), words@, t1, t2, mask, 0);
    let mut table: CuckooHashTable<Word> = CuckooHashTable::new();
    let mut i: usize = 0;
    while i < words.len()
        invariant
            phf1.wf(),
            phf2.wf(),
            t1 == phf1.table(),
            t2 == phf2.table(),
            i <= words@.len(),
            table.wf(),
            table.count_spec() == i,
            table.firsts() + table.seconds() == i,
            forall|j: int|
                0 <= j < i ==> (#[trigger] table.values()[j]).name@ == words@[j].name@,
            forall|j: int|
                0 <= j < i ==> #[trigger] table.entry_prefs()[j] == word_slots(
                    words@[j],
                    t1,
                    t2,
                    mask,
                ),
            table.entry_prefs().len() == i,
            goal == build_ok(table.prefs(), words@, t1, t2, mask, i as int),
            goal == build_ok(Map::<u16, (u16, u16)>::empty(), words@, t1, t2, mask, 0),
        decreases words@.len() - i,
    {
        let w = words[i].clone();
        let h1 = hash_name(w.name.as_slice(), phf1, phf2, mask);
        let h2 = hash_name_swapped(w.name.as_slice(), phf1, phf2, mask);
        let ghost wname = w.name@;
        let ghost vals0 = table.values();
        let ghost eprefs0 = table.entry_prefs();
        proof {
            table.lemma_count_is_values_len();
            assert((h1, h2) == word_slots(words@[i as int], t1, t2, mask));
        }
        if !table.try_add(w, h1, h2) {
            proof {
                assert(!build_ok(table.prefs(), words@, t1, t2, mask, i as int));
            }
            return None;
        }
        proof {
            assert forall|j: int|
                0 <= j < i + 1 implies (#[trigger] table.values()[j]).name@ == words@[j].name@ by {
                if j < i {
                    assert(table.values()[j] == vals0[j]);
                } else {
                    assert(table.values()[j].name@ == wname);
                }
            }
            assert forall|j: int|
                0 <= j < i + 1 implies #[trigger] table.entry_prefs()[j] == word_slots(
                words@[j],
                t1,
                t2,
                mask,
            ) by {
                if j < i {
                    assert(table.entry_prefs()[j] == eprefs0[j]);
                } else {
                    assert(table.entry_prefs()[j] == (h1, h2));
                }
            }
            table.lemma_count_is_values_len();
        }
        i += 1;
    }
    proof {
        table.lemma_count_is_values_len();
        assert forall|wi: int| 0 <= wi < words@.len() implies word_placed(
            table,
            #[trigger] words@[wi],
            t1,
            t2,
            mask,
        ) by {
            table.lemma_value_resident(wi);
            let k = choose|k: u16|
                {
                    &&& table.contents().dom().contains(k)
                    &&& table.contents()[k] == table.values()[wi]
                    &&& #[trigger] table.prefs()[k] == table.entry_prefs()[wi]
                    &&& (k == table.entry_prefs()[wi].0 || k == table.entry_prefs()[wi].1)
                };
            assert(table.contents()[k].name@ == words@[wi].name@);
            assert(table.entry_prefs()[wi] == word_slots(words@[wi], t1, t2, mask));
        }
    }
    Some(table)
}

/// Drive the retry loop: attempt a full placement, and after each failure
/// reshuffle both permutation tables (continuing the generator's sequence)
/// and rebuild from scratch.  After a successful attempt the placed count
/// is checked against the word count; a mismatch would mean a broken table
/// invariant and is reported as a fatal error.
pub fn search_tables(
    words: &Vec<Word>,
    rng: &mut impl DotNetRand,
    phf1: &mut PearsonHashFunction,
    phf2: &mut PearsonHashFunction,
    mask: u16,
    max_attempts: usize,
) -> (r: Result<CuckooHashTable<Word>, ToolLibError>)
    requires
        old(rng).inv(),
        old(phf1).wf(),
        old(phf2).wf(),
    ensures
        final(rng).inv(),
        final(phf1).wf(),
        final(phf2).wf(),
        (max_attempts >= 1 && build_ok(
            Map::<u16, (u16, u16)>::empty(),
            words@,
            old(phf1).table(),
            old(phf2).table(),
            mask,
            0,
        )) ==> r is Ok,
        r matches Ok(t) ==> {
            &&& t.wf()
            &&& t.count_spec() == words@.len()
            &&& t.firsts() + t.seconds() == words@.len()
            &&& forall|i: int|
                0 <= i < words@.len() ==> (#[trigger] t.values()[i]).name@ == words@[i].name@
            &&& words_placed(t, words@, final(phf1).table(), final(phf2).table(), mask)
        },
{
    let ghost first_ok = build_ok(
        Map::<u16, (u16, u16)>::empty(),
        words@,
        old(phf1).table(),
        old(phf2).table(),
        mask,
        0,
    );
    let mut attempts: usize = 0;
    while attempts < max_attempts
        invariant
            rng.inv(),
            phf1.wf(),
            phf2.wf(),
            attempts <= max_attempts,
            first_ok == build_ok(
                Map::<u16, (u16, u16)>::empty(),
                words@,
                old(phf1).table(),
                old(phf2).table(),
                mask,
                0,
            ),
            attempts == 0 ==> phf1.table() == old(phf1).table() && phf2.table() == old(
                phf2,
            ).table(),
            first_ok && max_attempts >= 1 ==> attempts == 0,
        decreases max_attempts - attempts,
    {
        match attempt_build(words, phf1, phf2, mask) {
            Some(table) => {
                if table.count() != words.len() {
                    let mut msg = String::from_str("hash table only has ");
                    msg.append(usize_to_string(table.count()).as_str());
                    msg.append(" words; expected ");
                    msg.append(usize_to_string(words.len()).as_str());
                    msg.append(" words");
                    return Err(ToolLibError::Message(msg));
                }
                return Ok(table);
            },
            None => {
                phf1.shuffle(rng);
                phf2.shuffle(rng);
            },
        }
        attempts += 1;
    }
    Err(ToolLibError::Message("no placement found within the attempt bound".to_string()))
}

/// Emission address of the first permutation table.
pub fn aux1_org() -> (r: u16)
    ensures
        r as int == ROM_SIZE - 2 * HASH_TABLE_SIZE - 2 * AUX_TABLE_SIZE,
{
    ((ROM_SIZE - 2 * HASH_TABLE_SIZE) - 2 * AUX_TABLE_SIZE) as u16
}

/// Emission address of the second permutation table.
pub fn aux2_org() -> (r: u16)
    ensures
        r as int == ROM_SIZE - 2 * HASH_TABLE_SIZE - AUX_TABLE_SIZE,
{
    ((ROM_SIZE - 2 * HASH_TABLE_SIZE) - AUX_TABLE_SIZE) as u16
}

/// Emission address of the hash table itself.
pub fn tab_org() -> (r: u16)
    ensures
        r as int == ROM_SIZE - 2 * HASH_TABLE_SIZE,
{
    (ROM_SIZE - 2 * HASH_TABLE_SIZE) as u16
}

} // verus!
