//! Fixed-capacity cuckoo hash table keyed by a 16-bit slot index.
//!
//! Each entry carries its two preferred slots.  Insertion places an entry at
//! its first slot when free, and otherwise runs a bounded displacement chain
//! through second-preference slots.  A failed insertion leaves the table
//! exactly as it was; the chain is therefore first simulated against the
//! current table and committed only once a free slot has been found.

use vstd::prelude::*;

verus! {

/// Number of addressable slots: the full 16-bit key space.
pub const SLOT_SPACE: usize = 65536;

/// A stored entry: the two preferred slots and the value.
struct Entry<T> {
    hash1: u16,
    hash2: u16,
    value: T,
}

/// A slot's occupant: the index of an entry, and whether the entry sits at
/// its first-preference slot.
#[derive(Clone, Copy)]
struct SlotRef {
    idx: usize,
    at_first: bool,
}

/// Contribution of one slot to the residency counter for flag `b`.
spec fn flag_w(o: Option<SlotRef>, b: bool) -> nat {
    match o {
        Some(r) => if r.at_first == b {
            1nat
        } else {
            0nat
        },
        None => 0nat,
    }
}

/// How many occupied slots carry residency flag `b`.
spec fn count_flag(s: Seq<Option<SlotRef>>, b: bool) -> nat
    decreases s.len(),
{
    if s.len() == 0 {
        0nat
    } else {
        count_flag(s.drop_last(), b) + flag_w(s.last(), b)
    }
}

proof fn lemma_count_flag_update(s: Seq<Option<SlotRef>>, i: int, v: Option<SlotRef>, b: bool)
    requires
        0 <= i < s.len(),
    ensures
        count_flag(s.update(i, v), b) + flag_w(s[i], b) == count_flag(s, b) + flag_w(v, b),
    decreases s.len(),
{
    let t = s.update(i, v);
    if i == s.len() - 1 {
        assert(t.drop_last() =~= s.drop_last());
        assert(t.last() == v);
    } else {
        assert(t.drop_last() =~= s.drop_last().update(i, v));
        assert(t.last() == s.last());
        lemma_count_flag_update(s.drop_last(), i, v, b);
    }
}

proof fn lemma_count_flag_le(s: Seq<Option<SlotRef>>, b: bool)
    ensures
        count_flag(s, b) <= s.len(),
    decreases s.len(),
{
    if s.len() > 0 {
        lemma_count_flag_le(s.drop_last(), b);
    }
}

proof fn lemma_count_flag_none(s: Seq<Option<SlotRef>>, b: bool)
    requires
        forall|j: int| 0 <= j < s.len() ==> (#[trigger] s[j]) is None,
    ensures
        count_flag(s, b) == 0,
    decreases s.len(),
{
    if s.len() > 0 {
        lemma_count_flag_none(s.drop_last(), b);
    }
}

/// The displacement walk over a table's preference map: starting at slot
/// `t`, each occupied slot defers to its occupant's second preference; the
/// walk ends at the first free slot, and fails when it revisits a slot (a
/// cycle among already-displaced occupants).
pub open spec fn walk_prefs(
    p: Map<u16, (u16, u16)>,
    t: u16,
    visited: Seq<u16>,
    fuel: nat,
) -> Option<Seq<u16>>
    decreases fuel,
{
    if visited.contains(t) {
        None
    } else if !p.dom().contains(t) {
        Some(visited.push(t))
    } else if fuel == 0 {
        None
    } else {
        walk_prefs(p, p[t].1, visited.push(t), (fuel - 1) as nat)
    }
}

/// Whether inserting an entry with preferences (h1, h2) into a table with
/// this preference map succeeds.
pub open spec fn add_ok(p: Map<u16, (u16, u16)>, h1: u16, h2: u16) -> bool {
    !p.dom().contains(h1) || walk_prefs(p, h2, Seq::empty(), (SLOT_SPACE + 1) as nat) is Some
}

/// The slots a successful insertion writes, in order: the slot the new
/// entry lands in first, then each displaced occupant's destination,
/// ending at the free slot the chain reaches.
pub open spec fn placement_chain(p: Map<u16, (u16, u16)>, h1: u16, h2: u16) -> Seq<u16> {
    if !p.dom().contains(h1) {
        seq![h1]
    } else {
        walk_prefs(p, h2, Seq::empty(), (SLOT_SPACE + 1) as nat)->Some_0
    }
}

/// A map after threading a displacement chain through it: `v` lands at the
/// chain's first slot, each displaced value moves one slot down the chain,
/// and the chain's last slot (previously free) becomes occupied.
pub open spec fn chain_apply<V>(m: Map<u16, V>, chain: Seq<u16>, v: V) -> Map<u16, V>
    decreases chain.len(),
{
    if chain.len() == 0 {
        m
    } else if chain.len() == 1 {
        m.insert(chain[0], v)
    } else {
        chain_apply(m.insert(chain[0], v), chain.drop_first(), m[chain[0]])
    }
}

/// A map that relates to `m0` pointwise as a threaded chain does is
/// exactly `chain_apply` of the chain.
proof fn lemma_chain_apply_pointwise<V>(m0: Map<u16, V>, m1: Map<u16, V>, chain: Seq<u16>, v: V)
    requires
        chain.len() >= 1,
        forall|x: int, y: int| 0 <= x < y < chain.len() ==> chain[x] != chain[y],
        forall|x: int| 0 <= x < chain.len() - 1 ==> m0.dom().contains(#[trigger] chain[x]),
        !m0.dom().contains(chain.last()),
        m1.dom() == m0.dom().insert(chain.last()),
        m1[chain[0]] == v,
        forall|x: int| 1 <= x < chain.len() ==> m1[#[trigger] chain[x]] == m0[chain[x - 1]],
        forall|k: u16|
            m0.dom().contains(k) && !chain.contains(k) ==> m1[k] == m0[k],
    ensures
        m1 == chain_apply(m0, chain, v),
    decreases chain.len(),
{
    if chain.len() == 1 {
        assert forall|k: u16| m0.dom().contains(k) && k != chain[0] implies m1[k] == m0[k] by {
            assert(!chain.contains(k)) by {
                if chain.contains(k) {
                    let x = choose|x: int| 0 <= x < chain.len() && chain[x] == k;
                    assert(chain[0] == k);
                }
            }
        }
        assert(m1 =~= m0.insert(chain[0], v));
    } else {
        let c0 = chain[0];
        let m0b = m0.insert(c0, v);
        let rest = chain.drop_first();
        assert(m0.dom().contains(c0));
        assert(m0b.dom() =~= m0.dom());
        assert(rest.last() == chain.last());
        assert(!rest.contains(c0)) by {
            if rest.contains(c0) {
                let x = choose|x: int| 0 <= x < rest.len() && rest[x] == c0;
                assert(chain[x + 1] == c0);
            }
        }
        assert forall|k: u16|
            m0b.dom().contains(k) && !rest.contains(k) implies m1[k] == m0b[k] by {
            if k == c0 {
            } else {
                assert(!chain.contains(k)) by {
                    if chain.contains(k) {
                        let x = choose|x: int| 0 <= x < chain.len() && chain[x] == k;
                        assert(x >= 1);
                        assert(rest[x - 1] == k);
                    }
                }
            }
        }
        assert forall|x: int| 1 <= x < rest.len() implies m1[#[trigger] rest[x]] == m0b[rest[x
            - 1]] by {
            assert(rest[x] == chain[x + 1]);
            assert(rest[x - 1] == chain[x]);
            assert(chain[x] != c0);
        }
        lemma_chain_apply_pointwise(m0b, m1, rest, m0[c0]);
    }
}

/// A cuckoo hash table.  Values are held in an append-only store; each
/// occupied slot points at one stored entry.
pub struct CuckooHashTable<T> {
    slots: Vec<Option<SlotRef>>,
    entries: Vec<Entry<T>>,
    num_first: usize,
    num_second: usize,
}

impl<T> CuckooHashTable<T> {
    /// The values stored, in insertion order.
    pub closed spec fn values(&self) -> Seq<T> {
        self.entries@.map_values(|e: Entry<T>| e.value)
    }

    /// Number of entries resident in the table.
    pub closed spec fn count_spec(&self) -> nat {
        self.entries@.len()
    }

    /// Entries resident in their first-preference slot.
    pub closed spec fn firsts(&self) -> nat {
        self.num_first as nat
    }

    /// Entries resident in their second-preference slot.
    pub closed spec fn seconds(&self) -> nat {
        self.num_second as nat
    }

    /// The map from each occupied slot to the value resident there.
    pub closed spec fn contents(&self) -> Map<u16, T> {
        Map::new(
            |k: u16| self.slots@[k as int] is Some,
            |k: u16| self.entries@[self.slots@[k as int]->Some_0.idx as int].value,
        )
    }

    /// The map from each occupied slot to its occupant's two preferred
    /// slots, first and second.
    pub closed spec fn prefs(&self) -> Map<u16, (u16, u16)> {
        Map::new(
            |k: u16| self.slots@[k as int] is Some,
            |k: u16|
                (
                    self.entries@[self.slots@[k as int]->Some_0.idx as int].hash1,
                    self.entries@[self.slots@[k as int]->Some_0.idx as int].hash2,
                ),
        )
    }

    /// The two preferred slots of each stored entry, in insertion order.
    pub closed spec fn entry_prefs(&self) -> Seq<(u16, u16)> {
        self.entries@.map_values(|e: Entry<T>| (e.hash1, e.hash2))
    }

    /// The occupied-slot maps agree: a slot holds a value exactly when it
    /// holds a preference pair.
    pub proof fn lemma_doms_agree(&self)
        ensures
            self.contents().dom() == self.prefs().dom(),
    {
        assert(self.contents().dom() =~= self.prefs().dom());
    }

    /// The internal walk coincides with the public walk over the
    /// preference map.
    proof fn lemma_walk_prefs_agree(&self, t: u16, visited: Seq<u16>, fuel: nat)
        requires
            self.wf(),
        ensures
            self.walk(t, visited, fuel) == walk_prefs(self.prefs(), t, visited, fuel),
        decreases fuel,
    {
        if visited.contains(t) {
        } else if self.slots@[t as int] is None {
            assert(!self.prefs().dom().contains(t));
        } else if fuel == 0 {
        } else {
            assert(self.prefs().dom().contains(t));
            assert(self.prefs()[t].1 == self.entries@[self.slots@[t as int]->Some_0.idx
                as int].hash2);
            self.lemma_walk_prefs_agree(
                self.entries@[self.slots@[t as int]->Some_0.idx as int].hash2,
                visited.push(t),
                (fuel - 1) as nat,
            );
        }
    }

    /// Entry `e` occupies some slot.
    spec fn resident(&self, e: int) -> bool {
        exists|k: int|
            0 <= k < SLOT_SPACE && (#[trigger] self.slots@[k]) is Some
                && self.slots@[k]->Some_0.idx == e
    }

    /// Validity: every occupied slot points at a distinct stored entry,
    /// every stored entry occupies exactly one slot, the slot is the entry's
    /// first or second preference as its flag says, and the two residency
    /// counters count exactly the flags and sum to the number of entries.
    pub closed spec fn wf(&self) -> bool {
        &&& self.slots@.len() == SLOT_SPACE
        &&& forall|k: int|
            0 <= k < SLOT_SPACE && (#[trigger] self.slots@[k]) is Some
                ==> self.slots@[k]->Some_0.idx < self.entries@.len()
        &&& forall|k1: int, k2: int|
            0 <= k1 < k2 < SLOT_SPACE && (#[trigger] self.slots@[k1]) is Some
                && (#[trigger] self.slots@[k2]) is Some
                ==> self.slots@[k1]->Some_0.idx != self.slots@[k2]->Some_0.idx
        &&& forall|e: int| 0 <= e < self.entries@.len() ==> #[trigger] self.resident(e)
        &&& forall|k: int|
            0 <= k < SLOT_SPACE && (#[trigger] self.slots@[k]) is Some ==> {
                let r = self.slots@[k]->Some_0;
                &&& (r.at_first ==> self.entries@[r.idx as int].hash1 == k)
                &&& (!r.at_first ==> self.entries@[r.idx as int].hash2 == k)
            }
        &&& self.num_first == count_flag(self.slots@, true)
        &&& self.num_second == count_flag(self.slots@, false)
        &&& self.num_first + self.num_second == self.entries@.len()
    }

    /// The occupied slots of a bounded prefix, as a set.
    spec fn dom_prefix(&self, i: int) -> Set<u16> {
        Set::new(|k: u16| (k as int) < i && self.slots@[k as int] is Some)
    }

    proof fn lemma_dom_prefix(&self, i: int)
        requires
            self.wf(),
            0 <= i <= SLOT_SPACE,
        ensures
            self.dom_prefix(i).finite(),
            self.dom_prefix(i).len() == count_flag(self.slots@.take(i), true) + count_flag(
                self.slots@.take(i),
                false,
            ),
        decreases i,
    {
        if i == 0 {
            assert(self.dom_prefix(0) =~= Set::<u16>::empty());
            assert(self.slots@.take(0) =~= Seq::<Option<SlotRef>>::empty());
        } else {
            self.lemma_dom_prefix(i - 1);
            assert(self.slots@.take(i).drop_last() =~= self.slots@.take(i - 1));
            assert(self.slots@.take(i).last() == self.slots@[i - 1]);
            if self.slots@[i - 1] is Some {
                assert(self.dom_prefix(i) =~= self.dom_prefix(i - 1).insert((i - 1) as u16));
                assert(!self.dom_prefix(i - 1).contains((i - 1) as u16));
            } else {
                assert(self.dom_prefix(i) =~= self.dom_prefix(i - 1));
            }
        }
    }

    /// The resident count is exactly the number of occupied slots.
    pub proof fn lemma_count_is_occupied(&self)
        requires
            self.wf(),
        ensures
            self.contents().dom().finite(),
            self.contents().dom().len() == self.count_spec(),
    {
        self.lemma_dom_prefix(SLOT_SPACE as int);
        assert(self.slots@.take(SLOT_SPACE as int) =~= self.slots@);
        assert(self.dom_prefix(SLOT_SPACE as int) =~= self.contents().dom());
    }

    /// The number of stored values equals the resident count.
    pub proof fn lemma_count_is_values_len(&self)
        ensures
            self.count_spec() == self.values().len(),
    {
    }

    /// Every stored value is resident at exactly its first- or
    /// second-preference slot: a failed or successful insertion never loses
    /// an entry, and never parks one anywhere else.
    pub proof fn lemma_value_resident(&self, e: int)
        requires
            self.wf(),
            0 <= e < self.values().len(),
        ensures
            exists|k: u16|
                {
                    &&& self.contents().dom().contains(k)
                    &&& self.contents()[k] == self.values()[e]
                    &&& #[trigger] self.prefs()[k] == self.entry_prefs()[e]
                    &&& (k == self.entry_prefs()[e].0 || k == self.entry_prefs()[e].1)
                },
    {
        assert(self.resident(e));
        let k = choose|k: int|
            0 <= k < SLOT_SPACE && (#[trigger] self.slots@[k]) is Some && self.slots@[k]
                ->Some_0.idx == e;
        let ku = k as u16;
        assert(self.contents().dom().contains(ku) && self.contents()[ku] == self.values()[e]);
        assert(self.prefs()[ku] == self.entry_prefs()[e]);
        assert(ku == self.entry_prefs()[e].0 || ku == self.entry_prefs()[e].1);
    }

    /// A fresh vector of empty slots.
    fn blank_slots() -> (r: Vec<Option<SlotRef>>)
        ensures
            r@.len() == SLOT_SPACE,
            forall|j: int| 0 <= j < SLOT_SPACE ==> (#[trigger] r@[j]) is None,
    {
        let mut v: Vec<Option<SlotRef>> = Vec::new();
        let mut i: usize = 0;
        while i < SLOT_SPACE
            invariant
                i <= SLOT_SPACE,
                v@.len() == i,
                forall|j: int| 0 <= j < i ==> (#[trigger] v@[j]) is None,
            decreases SLOT_SPACE - i,
        {
            v.push(None);
            i += 1;
        }
        v
    }

    /// An empty table.
    pub fn new() -> (r: CuckooHashTable<T>)
        ensures
            r.wf(),
            r.contents() == Map::<u16, T>::empty(),
            r.prefs() == Map::<u16, (u16, u16)>::empty(),
            r.values() == Seq::<T>::empty(),
            r.entry_prefs() == Seq::<(u16, u16)>::empty(),
            r.count_spec() == 0,
            r.firsts() == 0,
            r.seconds() == 0,
    {
        let slots = Self::blank_slots();
        let r = CuckooHashTable { slots, entries: Vec::new(), num_first: 0, num_second: 0 };
        proof {
            lemma_count_flag_none(r.slots@, true);
            lemma_count_flag_none(r.slots@, false);
            assert(r.contents() =~= Map::<u16, T>::empty());
            assert(r.prefs() =~= Map::<u16, (u16, u16)>::empty());
            assert(r.values() =~= Seq::<T>::empty());
            assert(r.entry_prefs() =~= Seq::<(u16, u16)>::empty());
        }
        r
    }

    /// Empty the table and reset both residency counters.
    pub fn clear(&mut self)
        ensures
            final(self).wf(),
            final(self).contents() == Map::<u16, T>::empty(),
            final(self).prefs() == Map::<u16, (u16, u16)>::empty(),
            final(self).values() == Seq::<T>::empty(),
            final(self).entry_prefs() == Seq::<(u16, u16)>::empty(),
            final(self).count_spec() == 0,
            final(self).firsts() == 0,
            final(self).seconds() == 0,
    {
        self.slots = Self::blank_slots();
        self.entries.clear();
        self.num_first = 0;
        self.num_second = 0;
        proof {
            lemma_count_flag_none(self.slots@, true);
            lemma_count_flag_none(self.slots@, false);
            assert(self.contents() =~= Map::<u16, T>::empty());
            assert(self.prefs() =~= Map::<u16, (u16, u16)>::empty());
            assert(self.values() =~= Seq::<T>::empty());
            assert(self.entry_prefs() =~= Seq::<(u16, u16)>::empty());
        }
    }

    /// Number of entries resident in the table.
    pub fn count(&self) -> (r: usize)
        requires
            self.wf(),
        ensures
            r == self.count_spec(),
    {
        self.entries.len()
    }

    /// How many entries sit in their first-preference slot.
    pub fn num_values_at_first(&self) -> (r: usize)
        ensures
            r == self.firsts(),
    {
        self.num_first
    }

    /// How many entries sit in their second-preference slot.
    pub fn num_values_at_second(&self) -> (r: usize)
        ensures
            r == self.seconds(),
    {
        self.num_second
    }

    /// The value resident at a slot, if any.  No side effects.
    pub fn try_get(&self, key: u16) -> (r: Option<&T>)
        requires
            self.wf(),
        ensures
            match r {
                Some(v) => self.contents().dom().contains(key) && *v == self.contents()[key],
                None => !self.contents().dom().contains(key),
            },
    {
        match self.slots[key as usize] {
            None => None,
            Some(sr) => Some(&self.entries[sr.idx].value),
        }
    }

    /// The displacement walk that would start by placing an entry at slot
    /// `t`: either the distinct slots the chain writes, ending with the free
    /// slot reached, or nothing when the walk revisits a slot (a cycle).
    spec fn walk(&self, t: u16, visited: Seq<u16>, fuel: nat) -> Option<Seq<u16>>
        decreases fuel,
    {
        if visited.contains(t) {
            None
        } else if self.slots@[t as int] is None {
            Some(visited.push(t))
        } else if fuel == 0 {
            None
        } else {
            self.walk(
                self.entries@[self.slots@[t as int]->Some_0.idx as int].hash2,
                visited.push(t),
                (fuel - 1) as nat,
            )
        }
    }

    /// Insert a value whose preferred slots are `h1` and `h2`.  Places it at
    /// `h1` when free; otherwise runs the displacement chain toward `h2`.
    /// On failure the table is left exactly as it was.
    pub fn try_add(&mut self, value: T, h1: u16, h2: u16) -> (ok: bool)
        requires
            old(self).wf(),
        ensures
            final(self).wf(),
            ok == add_ok(old(self).prefs(), h1, h2),
            !old(self).prefs().dom().contains(h2) ==> ok,
            !ok ==> *final(self) == *old(self),
            ok ==> ({
                let chain = placement_chain(old(self).prefs(), h1, h2);
                &&& chain.len() >= 1
                &&& !old(self).prefs().dom().contains(chain.last())
                &&& final(self).contents() == chain_apply(old(self).contents(), chain, value)
                &&& final(self).prefs() == chain_apply(old(self).prefs(), chain, (h1, h2))
                &&& final(self).values() == old(self).values().push(value)
                &&& final(self).entry_prefs() == old(self).entry_prefs().push((h1, h2))
                &&& final(self).count_spec() == old(self).count_spec() + 1
                &&& final(self).firsts() + final(self).seconds() == final(self).count_spec()
                &&& (!old(self).prefs().dom().contains(h1) ==> {
                    &&& chain == seq![h1]
                    &&& final(self).firsts() == old(self).firsts() + 1
                    &&& final(self).seconds() == old(self).seconds()
                })
                &&& (old(self).prefs().dom().contains(h1) ==> {
                    &&& chain[0] == h2
                    &&& final(self).firsts() + chain.len() == old(self).firsts() + 1
                    &&& final(self).seconds() == old(self).seconds() + chain.len()
                })
            }),
    {
        if self.slots[h1 as usize].is_none() {
            let idx = self.entries.len();
            let ghost s0 = self.slots@;
            self.entries.push(Entry { hash1: h1, hash2: h2, value });
            self.slots[h1 as usize] = Some(SlotRef { idx, at_first: true });
            proof {
                lemma_count_flag_le(s0, true);
                lemma_count_flag_le(s0, false);
                lemma_count_flag_update(
                    s0,
                    h1 as int,
                    Some(SlotRef { idx, at_first: true }),
                    true,
                );
                lemma_count_flag_update(
                    s0,
                    h1 as int,
                    Some(SlotRef { idx, at_first: true }),
                    false,
                );
            }
            self.num_first = self.num_first + 1;
            proof {
                assert(self.values() =~= old(self).values().push(value));
                assert(self.entry_prefs() =~= old(self).entry_prefs().push((h1, h2)));
                assert forall|e: int| 0 <= e < self.entries@.len() implies #[trigger] self
                    .resident(e) by {
                    if e == idx {
                        assert(self.slots@[h1 as int] is Some);
                    } else {
                        assert(old(self).resident(e));
                        let k = choose|k: int|
                            0 <= k < SLOT_SPACE && (#[trigger] old(self).slots@[k]) is Some
                                && old(self).slots@[k]->Some_0.idx == e;
                        assert(self.slots@[k] is Some && self.slots@[k]->Some_0.idx == e);
                    }
                }
                let chain = placement_chain(old(self).prefs(), h1, h2);
                assert(chain == seq![h1]);
                assert(chain.len() == 1 && chain[0] == h1);
                assert(self.contents() =~= old(self).contents().insert(h1, value));
                assert(self.prefs() =~= old(self).prefs().insert(h1, (h1, h2)));
                assert(self.contents() == chain_apply(old(self).contents(), chain, value));
                assert(self.prefs() == chain_apply(old(self).prefs(), chain, (h1, h2)));
            }
            true
        } else {
            proof {
                assert(old(self).prefs().dom().contains(h1));
                if self.slots@[h2 as int] is None {
                    assert(self.walk(h2, Seq::empty(), (SLOT_SPACE + 1) as nat) == Some(
                        Seq::empty().push(h2),
                    ));
                }
                self.lemma_walk_prefs_agree(h2, Seq::empty(), (SLOT_SPACE + 1) as nat);
            }
            self.try_assign_and_kick(value, h1, h2)
        }
    }

    /// Simulate the displacement chain toward `h2` against the current
    /// table, and commit its writes only when it ends at a free slot.
    fn try_assign_and_kick(&mut self, value: T, h1: u16, h2: u16) -> (ok: bool)
        requires
            old(self).wf(),
            old(self).slots@[h1 as int] is Some,
        ensures
            final(self).wf(),
            ok == (walk_prefs(old(self).prefs(), h2, Seq::empty(), (SLOT_SPACE + 1) as nat)
                is Some),
            !ok ==> *final(self) == *old(self),
            ok ==> ({
                let chain = walk_prefs(
                    old(self).prefs(),
                    h2,
                    Seq::empty(),
                    (SLOT_SPACE + 1) as nat,
                )->Some_0;
                &&& chain.len() >= 1
                &&& chain[0] == h2
                &&& !old(self).prefs().dom().contains(chain.last())
                &&& final(self).contents() == chain_apply(old(self).contents(), chain, value)
                &&& final(self).prefs() == chain_apply(old(self).prefs(), chain, (h1, h2))
                &&& final(self).values() == old(self).values().push(value)
                &&& final(self).entry_prefs() == old(self).entry_prefs().push((h1, h2))
                &&& final(self).count_spec() == old(self).count_spec() + 1
                &&& final(self).firsts() + final(self).seconds() == final(self).count_spec()
                &&& final(self).firsts() + chain.len() == old(self).firsts() + 1
                &&& final(self).seconds() == old(self).seconds() + chain.len()
            }),
    {
        proof {
            self.lemma_walk_prefs_agree(h2, Seq::empty(), (SLOT_SPACE + 1) as nat);
        }
        let ghost s0 = self.slots@;
        let ghost e0 = self.entries@;
        let mut visited: Vec<u16> = Vec::new();
        let mut occs: Vec<usize> = Vec::new();
        let mut t: u16 = h2;
        let mut fuel: usize = SLOT_SPACE + 1;
        loop
            invariant
                self.wf(),
                *self == *old(self),
                self.slots@ == s0,
                self.entries@ == e0,
                visited@.len() == occs@.len(),
                fuel + visited@.len() == SLOT_SPACE + 1,
                forall|x: int, y: int|
                    0 <= x < y < visited@.len() ==> visited@[x] != visited@[y],
                forall|x: int|
                    0 <= x < visited@.len() ==> (#[trigger] s0[visited@[x] as int]) is Some
                        && s0[visited@[x] as int]->Some_0.idx == occs@[x],
                forall|x: int|
                    0 <= x < visited@.len() - 1 ==> (#[trigger] s0[visited@[x]
                        as int])->Some_0.at_first,
                forall|x: int|
                    0 <= x && x + 1 < visited@.len() ==> #[trigger] visited@[x + 1]
                        == e0[occs@[x] as int].hash2,
                visited@.len() > 0 ==> visited@[0] == h2,
                visited@.len() == 0 ==> t == h2,
                visited@.len() > 0 ==> t == e0[occs@[visited@.len() - 1] as int].hash2,
                old(self).walk(t, visited@, fuel as nat) == old(self).walk(
                    h2,
                    Seq::empty(),
                    (SLOT_SPACE + 1) as nat,
                ),
                old(self).walk(h2, Seq::empty(), (SLOT_SPACE + 1) as nat) == walk_prefs(
                    old(self).prefs(),
                    h2,
                    Seq::empty(),
                    (SLOT_SPACE + 1) as nat,
                ),
            ensures
                s0[t as int] is None,
                !visited@.contains(t),
                forall|x: int|
                    0 <= x < visited@.len() ==> (#[trigger] s0[visited@[x]
                        as int])->Some_0.at_first,
                old(self).walk(h2, Seq::empty(), (SLOT_SPACE + 1) as nat) == Some(
                    visited@.push(t),
                ),
            decreases fuel,
        {
            if contains_u16(&visited, t) {
                proof {
                    assert(old(self).walk(t, visited@, fuel as nat) is None);
                }
                return false;
            }
            let cur = self.slots[t as usize];
            match cur {
                None => {
                    proof {
                        assert forall|x: int| 0 <= x < visited@.len() implies (
                        #[trigger] s0[visited@[x] as int])->Some_0.at_first by {
                            if x == visited@.len() - 1 {
                                if !s0[visited@[x] as int]->Some_0.at_first {
                                    assert(e0[occs@[x] as int].hash2 == visited@[x]);
                                    assert(visited@[x] == t);
                                    assert(visited@.contains(t));
                                }
                            }
                        }
                        assert(old(self).walk(t, visited@, fuel as nat) == Some(
                            visited@.push(t),
                        ));
                    }
                    break ;
                },
                Some(r) => {
                    if fuel == 0 {
                        proof {
                            assert(old(self).walk(t, visited@, fuel as nat) is None);
                        }
                        return false;
                    }
                    proof {
                        if visited@.len() > 0 {
                            let last = visited@.len() - 1;
                            if !s0[visited@[last] as int]->Some_0.at_first {
                                assert(e0[occs@[last] as int].hash2 == visited@[last]);
                                assert(visited@[last] == t);
                                assert(visited@.contains(t));
                            }
                        }
                        assert(old(self).walk(t, visited@, fuel as nat) == old(self).walk(
                            e0[r.idx as int].hash2,
                            visited@.push(t),
                            (fuel - 1) as nat,
                        ));
                    }
                    let ghost vpre = visited@;
                    let ghost opre = occs@;
                    let ghost tpre = t;
                    visited.push(t);
                    occs.push(r.idx);
                    t = self.entries[r.idx].hash2;
                    fuel = fuel - 1;
                    proof {
                        assert forall|x: int|
                            0 <= x && x + 1 < visited@.len() implies #[trigger] visited@[x + 1]
                            == e0[occs@[x] as int].hash2 by {
                            if x + 1 < visited@.len() - 1 {
                                assert(visited@[x + 1] == vpre[x + 1]);
                                assert(occs@[x] == opre[x]);
                            } else {
                                assert(visited@[x + 1] == tpre);
                                if x >= 0 {
                                    assert(occs@[x] == opre[x]);
                                }
                            }
                        }
                    }
                },
            }
        }
        // Commit: thread the chain of entries through the visited slots and
        // finish at the free slot `t`.
        let ghost m = visited@.len();
        let new_idx = self.entries.len();
        self.entries.push(Entry { hash1: h1, hash2: h2, value });
        let mut pending: usize = new_idx;
        let mut k: usize = 0;
        while k < visited.len()
            invariant
                old(self).wf(),
                self.entries@ == e0.push(Entry { hash1: h1, hash2: h2, value }),
                self.slots@.len() == SLOT_SPACE,
                visited@.len() == occs@.len(),
                visited@.len() == m,
                k <= m,
                new_idx == e0.len(),
                s0.len() == SLOT_SPACE,
                s0 == old(self).slots@,
                e0 == old(self).entries@,
                s0[t as int] is None,
                !visited@.contains(t),
                forall|x: int, y: int|
                    0 <= x < y < visited@.len() ==> visited@[x] != visited@[y],
                forall|x: int|
                    0 <= x < visited@.len() ==> (#[trigger] s0[visited@[x] as int]) is Some
                        && s0[visited@[x] as int]->Some_0.idx == occs@[x]
                        && s0[visited@[x] as int]->Some_0.at_first,
                forall|x: int|
                    0 <= x && x + 1 < visited@.len() ==> #[trigger] visited@[x + 1]
                        == e0[occs@[x] as int].hash2,
                visited@.len() > 0 ==> visited@[0] == h2,
                visited@.len() == 0 ==> t == h2,
                visited@.len() > 0 ==> t == e0[occs@[visited@.len() - 1] as int].hash2,
                forall|x: int|
                    0 <= x < k ==> (#[trigger] self.slots@[visited@[x] as int]) == Some(
                        SlotRef {
                            idx: (if x == 0 {
                                new_idx
                            } else {
                                occs@[x - 1]
                            }),
                            at_first: false,
                        },
                    ),
                forall|j: int|
                    0 <= j < SLOT_SPACE && !visited@.take(k as int).contains(j as u16)
                        ==> #[trigger] self.slots@[j] == s0[j],
                pending == (if k == 0 {
                    new_idx
                } else {
                    occs@[k - 1]
                }),
                self.num_first + k == count_flag(s0, true),
                self.num_second == count_flag(s0, false) + k,
                self.num_first == count_flag(self.slots@, true),
                self.num_second == count_flag(self.slots@, false),
            decreases visited@.len() - k,
        {
            let slot = visited[k];
            let ghost before = self.slots@;
            proof {
                assert(!visited@.take(k as int).contains(slot)) by {
                    if visited@.take(k as int).contains(slot) {
                        let x = choose|x: int|
                            0 <= x < k && (#[trigger] visited@.take(k as int)[x]) == slot;
                        assert(visited@[x] == visited@[k as int]);
                    }
                }
                assert(self.slots@[slot as int] == s0[slot as int]);
                lemma_count_flag_update(
                    before,
                    slot as int,
                    Some(SlotRef { idx: pending, at_first: false }),
                    true,
                );
                lemma_count_flag_update(
                    before,
                    slot as int,
                    Some(SlotRef { idx: pending, at_first: false }),
                    false,
                );
                lemma_count_flag_le(before, false);
            }
            self.slots[slot as usize] = Some(SlotRef { idx: pending, at_first: false });
            self.num_first = self.num_first - 1;
            self.num_second = self.num_second + 1;
            pending = occs[k];
            k += 1;
            proof {
                assert forall|j: int|
                    0 <= j < SLOT_SPACE && !visited@.take(k as int).contains(j as u16)
                        implies #[trigger] self.slots@[j] == s0[j] by {
                    assert(!visited@.take(k - 1).contains(j as u16)) by {
                        if visited@.take(k - 1).contains(j as u16) {
                            let x = choose|x: int|
                                0 <= x < k - 1 && (#[trigger] visited@.take(k - 1)[x]) == (j
                                    as u16);
                            assert(visited@.take(k as int)[x] == (j as u16));
                        }
                    }
                    assert(j != slot) by {
                        if j == slot {
                            assert(visited@.take(k as int)[k - 1] == slot);
                        }
                    }
                }
            }
        }
        let ghost before = self.slots@;
        proof {
            assert(visited@.take(m as int) =~= visited@);
            assert(self.slots@[t as int] == s0[t as int]);
            lemma_count_flag_update(
                before,
                t as int,
                Some(SlotRef { idx: pending, at_first: false }),
                true,
            );
            lemma_count_flag_update(
                before,
                t as int,
                Some(SlotRef { idx: pending, at_first: false }),
                false,
            );
            lemma_count_flag_le(before, false);
        }
        self.slots[t as usize] = Some(SlotRef { idx: pending, at_first: false });
        self.num_second = self.num_second + 1;
        proof {
            assert forall|x: int|
                0 <= x < visited@.len() implies (#[trigger] self.slots@[visited@[x] as int])
                == Some(
                SlotRef {
                    idx: (if x == 0 {
                        new_idx
                    } else {
                        occs@[x - 1]
                    }),
                    at_first: false,
                },
            ) by {
                assert(visited@[x] != t);
            }
            assert forall|j: int|
                0 <= j < SLOT_SPACE && j != t && !visited@.contains(j as u16)
                    implies #[trigger] self.slots@[j] == old(self).slots@[j] by {}
            self.lemma_commit_wf(*old(self), value, h1, h2, visited@, occs@, t, new_idx);
        }
        true
    }

    /// After the commit writes, the table is well-formed again and holds
    /// exactly the old entries plus the new one.
    proof fn lemma_commit_wf(
        &self,
        prev: Self,
        value: T,
        h1: u16,
        h2: u16,
        visited: Seq<u16>,
        occs: Seq<usize>,
        t: u16,
        new_idx: usize,
    )
        requires
            prev.wf(),
            self.entries@ == prev.entries@.push(Entry { hash1: h1, hash2: h2, value }),
            new_idx == prev.entries@.len(),
            self.slots@.len() == SLOT_SPACE,
            visited.len() == occs.len(),
            prev.slots@[t as int] is None,
            !visited.contains(t),
            forall|x: int, y: int| 0 <= x < y < visited.len() ==> visited[x] != visited[y],
            forall|x: int|
                0 <= x < visited.len() ==> (#[trigger] prev.slots@[visited[x] as int]) is Some
                    && prev.slots@[visited[x] as int]->Some_0.idx == occs[x]
                    && prev.slots@[visited[x] as int]->Some_0.at_first,
            forall|x: int|
                0 <= x && x + 1 < visited.len() ==> #[trigger] visited[x + 1] == prev.entries@[occs[x]
                    as int].hash2,
            visited.len() > 0 ==> visited[0] == h2,
            visited.len() == 0 ==> t == h2,
            visited.len() > 0 ==> t == prev.entries@[occs[visited.len() - 1] as int].hash2,
            forall|x: int|
                0 <= x < visited.len() ==> (#[trigger] self.slots@[visited[x] as int]) == Some(
                    SlotRef {
                        idx: (if x == 0 {
                            new_idx
                        } else {
                            occs[x - 1]
                        }),
                        at_first: false,
                    },
                ),
            self.slots@[t as int] == Some(
                SlotRef {
                    idx: (if visited.len() == 0 {
                        new_idx
                    } else {
                        occs[visited.len() - 1]
                    }),
                    at_first: false,
                },
            ),
            forall|j: int|
                0 <= j < SLOT_SPACE && j != t && !visited.contains(j as u16)
                    ==> #[trigger] self.slots@[j] == prev.slots@[j],
            self.num_first == count_flag(self.slots@, true),
            self.num_second == count_flag(self.slots@, false),
            self.num_first + visited.len() == count_flag(prev.slots@, true),
            self.num_second == count_flag(prev.slots@, false) + visited.len() + 1,
        ensures
            self.wf(),
            self.values() == prev.values().push(value),
            self.entry_prefs() == prev.entry_prefs().push((h1, h2)),
            self.count_spec() == prev.count_spec() + 1,
            self.contents() == chain_apply(prev.contents(), visited.push(t), value),
            self.prefs() == chain_apply(prev.prefs(), visited.push(t), (h1, h2)),
    {
        let n = self.entries@.len();
        let head: int = if visited.len() == 0 {
            t as int
        } else {
            visited[0] as int
        };
        assert forall|x: int| 0 <= x < occs.len() implies (#[trigger] occs[x]) < new_idx by {
            assert(prev.slots@[visited[x] as int] is Some);
        }
        assert forall|k: int|
            0 <= k < SLOT_SPACE && (#[trigger] self.slots@[k]) is Some implies self.slots@[k]
            ->Some_0.idx < n by {
            if k == t as int {
                if visited.len() > 0 {
                    assert(occs[visited.len() - 1] < new_idx);
                }
            } else if visited.contains(k as u16) {
                let x = choose|x: int|
                    0 <= x < visited.len() && (#[trigger] visited[x]) == (k as u16);
                assert(self.slots@[visited[x] as int] is Some);
                if x > 0 {
                    assert(occs[x - 1] < new_idx);
                }
            } else {
                assert(self.slots@[k] == prev.slots@[k]);
            }
        }
        assert forall|k1: int, k2: int|
            0 <= k1 < k2 < SLOT_SPACE && (#[trigger] self.slots@[k1]) is Some
                && (#[trigger] self.slots@[k2]) is Some implies self.slots@[k1]->Some_0.idx
            != self.slots@[k2]->Some_0.idx by {
            self.occupant_source(prev, visited, occs, t, new_idx, k1);
            self.occupant_source(prev, visited, occs, t, new_idx, k2);
            let i1 = self.slots@[k1]->Some_0.idx;
            let i2 = self.slots@[k2]->Some_0.idx;
            if i1 == i2 {
                if i1 == new_idx {
                    // both slots are the head of the chain: the same slot
                    assert(k1 == head && k2 == head);
                } else if exists|x: int| 0 <= x < occs.len() && occs[x] == i1 {
                    let x1 = choose|x: int|
                        0 <= x < occs.len() && (#[trigger] occs[x]) == i1 && k1 == (if x + 1
                            < visited.len() {
                            visited[x + 1] as int
                        } else {
                            t as int
                        });
                    let x2 = choose|x: int|
                        0 <= x < occs.len() && (#[trigger] occs[x]) == i2 && k2 == (if x + 1
                            < visited.len() {
                            visited[x + 1] as int
                        } else {
                            t as int
                        });
                    if x1 != x2 {
                        let v1 = visited[x1] as int;
                        let v2 = visited[x2] as int;
                        assert(prev.slots@[v1] is Some);
                        assert(prev.slots@[v1]->Some_0.idx == occs[x1]);
                        assert(prev.slots@[v2] is Some);
                        assert(prev.slots@[v2]->Some_0.idx == occs[x2]);
                        assert(visited[x1] != visited[x2]);
                        if v1 < v2 {
                            assert(prev.slots@[v1]->Some_0.idx != prev.slots@[v2]->Some_0.idx);
                        } else {
                            assert(prev.slots@[v2]->Some_0.idx != prev.slots@[v1]->Some_0.idx);
                        }
                    }
                } else {
                    // both untouched: prev holds the same index at two slots
                    assert(prev.slots@[k1] is Some && prev.slots@[k1]->Some_0.idx == i1);
                    assert(prev.slots@[k2] is Some && prev.slots@[k2]->Some_0.idx == i2);
                }
            }
        }
        assert forall|e: int| 0 <= e < n implies #[trigger] self.resident(e) by {
            if e == new_idx {
                assert(self.slots@[head] is Some && self.slots@[head]->Some_0.idx == e);
            } else if exists|x: int| 0 <= x < occs.len() && occs[x] == e {
                let x = choose|x: int| 0 <= x < occs.len() && (#[trigger] occs[x]) == e;
                let k0: int = if x + 1 < visited.len() {
                    visited[x + 1] as int
                } else {
                    t as int
                };
                assert(self.slots@[k0] is Some && self.slots@[k0]->Some_0.idx == e);
            } else {
                assert(prev.resident(e));
                let k = choose|k: int|
                    0 <= k < SLOT_SPACE && (#[trigger] prev.slots@[k]) is Some && prev.slots@[k]
                        ->Some_0.idx == e;
                assert(!visited.contains(k as u16)) by {
                    if visited.contains(k as u16) {
                        let x = choose|x: int|
                            0 <= x < visited.len() && (#[trigger] visited[x]) == (k as u16);
                        assert(occs[x] == e);
                    }
                }
                assert(k != t);
                assert(self.slots@[k] == prev.slots@[k]);
                assert(self.slots@[k] is Some && self.slots@[k]->Some_0.idx == e);
            }
        }
        assert forall|k: int|
            0 <= k < SLOT_SPACE && (#[trigger] self.slots@[k]) is Some implies {
            let r = self.slots@[k]->Some_0;
            &&& (r.at_first ==> self.entries@[r.idx as int].hash1 == k)
            &&& (!r.at_first ==> self.entries@[r.idx as int].hash2 == k)
        } by {
            if k == t {
                if visited.len() == 0 {
                    assert(self.entries@[new_idx as int].hash2 == h2);
                } else {
                    assert(self.entries@[occs[visited.len() - 1] as int].hash2 == t);
                }
            } else if visited.contains(k as u16) {
                let x = choose|x: int|
                    0 <= x < visited.len() && (#[trigger] visited[x]) == (k as u16);
                assert(self.slots@[visited[x] as int] == Some(
                    SlotRef {
                        idx: (if x == 0 {
                            new_idx
                        } else {
                            occs[x - 1]
                        }),
                        at_first: false,
                    },
                ));
                if x == 0 {
                    assert(self.entries@[new_idx as int].hash2 == h2);
                    assert(visited[0] == h2);
                } else {
                    assert(visited[(x - 1) + 1] == prev.entries@[occs[x - 1] as int].hash2);
                }
            } else {
                assert(self.slots@[k] == prev.slots@[k]);
            }
        }
        assert(self.values() =~= prev.values().push(value));
        assert(self.entry_prefs() =~= prev.entry_prefs().push((h1, h2)));
        let chain = visited.push(t);
        let nn = chain.len();
        assert(chain.last() == t);
        assert forall|x: int, y: int| 0 <= x < y < nn implies chain[x] != chain[y] by {
            if y < nn - 1 {
            } else {
                assert(chain[y] == t);
                if visited.contains(chain[x]) {
                }
                assert(visited[x] == chain[x]);
                assert(visited.contains(chain[x]));
            }
        }
        assert forall|x: int| 0 <= x < nn - 1 implies prev.contents().dom().contains(
            #[trigger] chain[x],
        ) && prev.prefs().dom().contains(chain[x]) by {
            assert(prev.slots@[visited[x] as int] is Some);
        }
        assert(!prev.contents().dom().contains(t) && !prev.prefs().dom().contains(t));
        assert(self.contents().dom() =~= prev.contents().dom().insert(t)) by {
            assert forall|k: u16| #[trigger] self.slots@[k as int] is Some implies prev.slots@[k
                as int] is Some || k == t by {
                if k != t && !visited.contains(k) {
                    assert(self.slots@[k as int] == prev.slots@[k as int]);
                } else if visited.contains(k) {
                    let x = choose|x: int| 0 <= x < visited.len() && (#[trigger] visited[x]) == k;
                    assert(prev.slots@[visited[x] as int] is Some);
                }
            }
            assert forall|k: u16| prev.slots@[k as int] is Some implies #[trigger] self.slots@[k
                as int] is Some by {
                if visited.contains(k) {
                    let x = choose|x: int| 0 <= x < visited.len() && (#[trigger] visited[x]) == k;
                    assert(self.slots@[visited[x] as int] is Some);
                } else {
                    assert(k != t);
                    assert(self.slots@[k as int] == prev.slots@[k as int]);
                }
            }
            assert(self.slots@[t as int] is Some);
        }
        assert(self.prefs().dom() =~= self.contents().dom());
        assert(prev.prefs().dom() =~= prev.contents().dom());
        let head2: int = if visited.len() == 0 {
            t as int
        } else {
            visited[0] as int
        };
        assert(self.slots@[head2] is Some && self.slots@[head2]->Some_0.idx == new_idx);
        assert(self.contents()[chain[0]] == value);
        assert(self.prefs()[chain[0]] == (h1, h2));
        assert forall|x: int| 1 <= x < nn implies self.contents()[#[trigger] chain[x]]
            == prev.contents()[chain[x - 1]] && self.prefs()[chain[x]] == prev.prefs()[chain[x
            - 1]] by {
            let idxp = occs[x - 1];
            if x < nn - 1 {
                assert(self.slots@[visited[x] as int] == Some(
                    SlotRef { idx: idxp, at_first: false },
                ));
            } else {
                assert(chain[x] == t);
            }
            assert(prev.slots@[visited[x - 1] as int]->Some_0.idx == idxp);
            assert(idxp < new_idx);
        }
        assert forall|k: u16|
            prev.contents().dom().contains(k) && !chain.contains(k) implies self.contents()[k]
            == prev.contents()[k] && self.prefs()[k] == prev.prefs()[k] by {
            assert(k != t);
            assert(!visited.contains(k)) by {
                if visited.contains(k) {
                    let x = choose|x: int| 0 <= x < visited.len() && (#[trigger] visited[x]) == k;
                    assert(chain[x] == k);
                }
            }
            assert(self.slots@[k as int] == prev.slots@[k as int]);
        }
        lemma_chain_apply_pointwise(prev.contents(), self.contents(), chain, value);
        lemma_chain_apply_pointwise(prev.prefs(), self.prefs(), chain, (h1, h2));
    }

    /// Each occupied slot of the committed table is either the head of the
    /// chain (holding the new entry), a rewritten chain slot (holding the
    /// entry displaced from the previous chain slot), or untouched.
    proof fn occupant_source(
        &self,
        prev: Self,
        visited: Seq<u16>,
        occs: Seq<usize>,
        t: u16,
        new_idx: usize,
        k: int,
    )
        requires
            prev.wf(),
            0 <= k < SLOT_SPACE,
            self.slots@.len() == SLOT_SPACE,
            visited.len() == occs.len(),
            new_idx == prev.entries@.len(),
            prev.slots@[t as int] is None,
            !visited.contains(t),
            forall|x: int, y: int| 0 <= x < y < visited.len() ==> visited[x] != visited[y],
            forall|x: int|
                0 <= x < visited.len() ==> (#[trigger] prev.slots@[visited[x] as int]) is Some
                    && prev.slots@[visited[x] as int]->Some_0.idx == occs[x],
            forall|x: int|
                0 <= x < visited.len() ==> (#[trigger] self.slots@[visited[x] as int]) == Some(
                    SlotRef {
                        idx: (if x == 0 {
                            new_idx
                        } else {
                            occs[x - 1]
                        }),
                        at_first: false,
                    },
                ),
            self.slots@[t as int] == Some(
                SlotRef {
                    idx: (if visited.len() == 0 {
                        new_idx
                    } else {
                        occs[visited.len() - 1]
                    }),
                    at_first: false,
                },
            ),
            forall|j: int|
                0 <= j < SLOT_SPACE && j != t && !visited.contains(j as u16)
                    ==> #[trigger] self.slots@[j] == prev.slots@[j],
            self.slots@[k] is Some,
        ensures
            ({
                let i = self.slots@[k]->Some_0.idx;
                ||| (i == new_idx && k == (if visited.len() == 0 {
                    t as int
                } else {
                    visited[0] as int
                }))
                ||| (exists|x: int|
                    0 <= x < occs.len() && (#[trigger] occs[x]) == i && k == (if x + 1
                        < visited.len() {
                        visited[x + 1] as int
                    } else {
                        t as int
                    }))
                ||| (k != t && !visited.contains(k as u16) && prev.slots@[k] is Some
                    && prev.slots@[k]->Some_0.idx == i && i != new_idx && !(exists|x: int|
                    0 <= x < occs.len() && (#[trigger] occs[x]) == i))
            }),
    {
        let i = self.slots@[k]->Some_0.idx;
        if k == t as int {
            if visited.len() == 0 {
            } else {
                let x = visited.len() - 1;
                assert(occs[x] == i && k == (if x + 1 < visited.len() {
                    visited[x + 1] as int
                } else {
                    t as int
                }));
            }
        } else if visited.contains(k as u16) {
            let x = choose|x: int| 0 <= x < visited.len() && (#[trigger] visited[x]) == (k as u16);
            if x == 0 {
                assert(i == new_idx);
            } else {
                assert(occs[x - 1] == i);
                assert(k == (if (x - 1) + 1 < visited.len() {
                    visited[(x - 1) + 1] as int
                } else {
                    t as int
                }));
            }
        } else {
            assert(self.slots@[k] == prev.slots@[k]);
            assert(i < new_idx);
            assert(!(exists|x: int| 0 <= x < occs.len() && (#[trigger] occs[x]) == i)) by {
                if exists|x: int| 0 <= x < occs.len() && (#[trigger] occs[x]) == i {
                    let x = choose|x: int| 0 <= x < occs.len() && (#[trigger] occs[x]) == i;
                    let kv = visited[x] as int;
                    assert(prev.slots@[kv] is Some && prev.slots@[kv]->Some_0.idx == i);
                    assert(kv != k);
                    if k < kv {
                        assert(prev.slots@[k]->Some_0.idx != prev.slots@[kv]->Some_0.idx);
                    } else {
                        assert(prev.slots@[kv]->Some_0.idx != prev.slots@[k]->Some_0.idx);
                    }
                }
            }
        }
    }
}

/// Whether a vector of slot indices contains a given one.
fn contains_u16(v: &Vec<u16>, x: u16) -> (r: bool)
    ensures
        r == v@.contains(x),
{
    let mut i: usize = 0;
    while i < v.len()
        invariant
            i <= v@.len(),
            forall|j: int| 0 <= j < i ==> v@[j] != x,
        decreases v@.len() - i,
    {
        if v[i] == x {
            return true;
        }
        i += 1;
    }
    proof {
        assert(!v@.contains(x));
    }
    false
}


} // verus!
