//! Pearson hash functions over a 256-byte permutation table.

use vstd::prelude::*;

verus! {

/// Number of entries of a permutation table: one per byte value.
pub const AUX_TABLE_SIZE: usize = 256;

/// A source of bounded pseudo-random draws used to shuffle tables.
///
/// The generator's state is abstracted as a sequence of integers, and both
/// the value a draw returns and the state after it are functions of that
/// model: a caller that threads the model through its calls knows every
/// draw exactly.
pub trait DotNetRand: Sized {
    /// Validity invariant of the generator's state.
    spec fn inv(&self) -> bool;

    /// Mathematical model of the generator's state.
    spec fn model(&self) -> Seq<int>;

    /// The value the next draw with this bound returns, as a function of
    /// the model.
    spec fn val_of(m: Seq<int>, max_exclusive: usize) -> usize;

    /// The model after one draw with this bound.
    spec fn step_of(m: Seq<int>, max_exclusive: usize) -> Seq<int>;

    /// Draw a value in `[0, max_exclusive)`; zero when the bound is at most
    /// one (consuming no state).
    fn next(&mut self, max_exclusive: usize) -> (r: usize)
        requires
            old(self).inv(),
        ensures
            final(self).inv(),
            r == Self::val_of(old(self).model(), max_exclusive),
            final(self).model() == Self::step_of(old(self).model(), max_exclusive),
            max_exclusive <= 1 ==> r == 0,
            max_exclusive >= 1 ==> r < max_exclusive,
    ;
}

/// The table and generator model after the downward shuffle pass from
/// index `i`: for each i down to 1, draw j with bound i and swap positions
/// j and i - 1.
pub open spec fn shuffle_spec<R: DotNetRand>(s: Seq<u8>, m: Seq<int>, i: nat) -> (Seq<u8>, Seq<
    int,
>)
    decreases i,
{
    if i == 0 {
        (s, m)
    } else {
        let j = R::val_of(m, i as usize) as int;
        let s2 = s.update(j, s[i - 1]).update(i - 1, s[j]);
        shuffle_spec::<R>(s2, R::step_of(m, i as usize), (i - 1) as nat)
    }
}

/// The sequence of values a generator yields for a sequence of bounds:
/// each draw is a function of the model, which steps once per draw.
pub open spec fn draw_seq<R: DotNetRand>(m: Seq<int>, bounds: Seq<usize>) -> Seq<usize>
    decreases bounds.len(),
{
    if bounds.len() == 0 {
        Seq::empty()
    } else {
        seq![R::val_of(m, bounds[0])] + draw_seq::<R>(
            R::step_of(m, bounds[0]),
            bounds.drop_first(),
        )
    }
}

/// The model after a sequence of draws.
pub open spec fn model_after<R: DotNetRand>(m: Seq<int>, bounds: Seq<usize>) -> Seq<int>
    decreases bounds.len(),
{
    if bounds.len() == 0 {
        m
    } else {
        model_after::<R>(R::step_of(m, bounds[0]), bounds.drop_first())
    }
}

/// Perform one draw per bound, in order.  The results are exactly the draw
/// sequence of the generator's starting model: any number of draws from
/// equal states is bit-identical, whatever the bounds.
pub fn draw_all<R: DotNetRand>(rng: &mut R, bounds: &Vec<usize>) -> (r: Vec<usize>)
    requires
        old(rng).inv(),
    ensures
        final(rng).inv(),
        r@ == draw_seq::<R>(old(rng).model(), bounds@),
        final(rng).model() == model_after::<R>(old(rng).model(), bounds@),
{
    let ghost m0 = old(rng).model();
    let mut r: Vec<usize> = Vec::new();
    let mut i: usize = 0;
    proof {
        assert(bounds@.skip(0) =~= bounds@);
    }
    while i < bounds.len()
        invariant
            rng.inv(),
            i <= bounds@.len(),
            r@.len() == i,
            draw_seq::<R>(m0, bounds@) == r@ + draw_seq::<R>(rng.model(), bounds@.skip(i as int)),
            model_after::<R>(m0, bounds@) == model_after::<R>(
                rng.model(),
                bounds@.skip(i as int),
            ),
        decreases bounds@.len() - i,
    {
        let ghost mpre = rng.model();
        let v = rng.next(bounds[i]);
        r.push(v);
        proof {
            assert(bounds@.skip(i as int).drop_first() =~= bounds@.skip(i + 1));
            assert(bounds@.skip(i as int)[0] == bounds@[i as int]);
            assert(r@ + draw_seq::<R>(rng.model(), bounds@.skip(i + 1)) =~= r@.drop_last() + (
            seq![v] + draw_seq::<R>(rng.model(), bounds@.skip(i + 1))));
        }
        i += 1;
    }
    proof {
        assert(bounds@.skip(bounds@.len() as int) =~= Seq::<usize>::empty());
        assert(r@ + Seq::<usize>::empty() =~= r@);
    }
    r
}

/// Some position of the table holds the byte value `v`.
pub open spec fn covers(s: Seq<u8>, v: u8) -> bool {
    exists|i: int| 0 <= i < s.len() && (#[trigger] s[i]) == v
}

/// The 256 byte values form a permutation: no duplicates, full coverage.
pub open spec fn is_permutation(s: Seq<u8>) -> bool {
    &&& s.len() == AUX_TABLE_SIZE
    &&& forall|i: int, j: int| 0 <= i < j < s.len() ==> s[i] != s[j]
    &&& forall|v: u8| #[trigger] covers(s, v)
}

/// Swap two positions of a byte table.
fn swap_bytes(table: &mut Vec<u8>, a: usize, b: usize)
    requires
        a < old(table)@.len(),
        b < old(table)@.len(),
    ensures
        final(table)@ == old(table)@.update(a as int, old(table)@[b as int]).update(
            b as int,
            old(table)@[a as int],
        ),
{
    let va = table[a];
    let vb = table[b];
    table[a] = vb;
    table[b] = va;
}

/// Swapping two positions keeps a table a permutation.
proof fn lemma_swap_permutation(s: Seq<u8>, t: Seq<u8>, a: int, b: int)
    requires
        0 <= a < s.len(),
        0 <= b < s.len(),
        t == s.update(a, s[b]).update(b, s[a]),
        is_permutation(s),
    ensures
        is_permutation(t),
{
    assert forall|i: int, j: int| 0 <= i < j < t.len() implies t[i] != t[j] by {
        let x = if i == b { a } else if i == a { b } else { i };
        let y = if j == b { a } else if j == a { b } else { j };
        assert(t[i] == s[x]);
        assert(t[j] == s[y]);
        if x < y {
            assert(s[x] != s[y]);
        } else {
            assert(s[y] != s[x]);
        }
    }
    assert forall|v: u8| #[trigger] covers(t, v) by {
        assert(covers(s, v));
        let k = choose|i: int| 0 <= i < s.len() && (#[trigger] s[i]) == v;
        if k == a {
            assert(t[b] == v);
        } else if k == b {
            assert(t[a] == v);
        } else {
            assert(t[k] == v);
        }
    }
}

/// In-place downward shuffle driven by the generator: for `i` from the
/// length down to one, swap positions `next(i)` and `i - 1`.  Keeps the
/// table a permutation; the final table and the final generator state are
/// exactly the shuffle fold of the generator's draws.
pub fn shuffle<R: DotNetRand>(array: &mut Vec<u8>, rng: &mut R)
    requires
        old(rng).inv(),
        is_permutation(old(array)@),
    ensures
        final(rng).inv(),
        is_permutation(final(array)@),
        final(array)@ == shuffle_spec::<R>(
            old(array)@,
            old(rng).model(),
            old(array)@.len() as nat,
        ).0,
        final(rng).model() == shuffle_spec::<R>(
            old(array)@,
            old(rng).model(),
            old(array)@.len() as nat,
        ).1,
{
    let ghost goal = shuffle_spec::<R>(old(array)@, old(rng).model(), old(array)@.len() as nat);
    let mut i: usize = array.len();
    while i >= 1
        invariant
            rng.inv(),
            i <= array@.len(),
            is_permutation(array@),
            shuffle_spec::<R>(array@, rng.model(), i as nat) == goal,
        decreases i,
    {
        let j = rng.next(i);
        let ghost s0 = array@;
        swap_bytes(array, j, i - 1);
        proof {
            lemma_swap_permutation(s0, array@, j as int, i - 1);
        }
        i -= 1;
    }
}

/// Pearson fold: starting from `acc`, replace the accumulator by
/// `table[acc ^ byte]` for each input byte in order.
pub open spec fn pearson_fold(table: Seq<u8>, bytes: Seq<u8>, acc: u8) -> u8
    decreases bytes.len(),
{
    if bytes.len() == 0 {
        acc
    } else {
        pearson_fold(table, bytes.drop_first(), table[(acc ^ bytes.first()) as int])
    }
}

/// ASCII uppercase of one byte.
pub open spec fn upper_byte(b: u8) -> u8 {
    if 97 <= b <= 122 {
        (b - 32) as u8
    } else {
        b
    }
}

/// ASCII uppercase of a byte string.
pub open spec fn upper_bytes(s: Seq<u8>) -> Seq<u8> {
    s.map_values(|b: u8| upper_byte(b))
}

/// Canonicalize a name to its uppercase ASCII byte form.
pub fn uppercase_bytes(s: &[u8]) -> (r: Vec<u8>)
    ensures
        r@ == upper_bytes(s@),
{
    let mut r: Vec<u8> = Vec::new();
    let mut i: usize = 0;
    while i < s.len()
        invariant
            i <= s@.len(),
            r@.len() == i,
            forall|k: int| 0 <= k < i ==> r@[k] == upper_byte(s@[k]),
        decreases s@.len() - i,
    {
        let c = s[i];
        if 97 <= c && c <= 122 {
            r.push(c - 32);
        } else {
            r.push(c);
        }
        i += 1;
    }
    proof {
        assert(r@ =~= upper_bytes(s@));
    }
    r
}

/// The identity permutation the tables start from.
pub open spec fn identity_table() -> Seq<u8> {
    Seq::new(AUX_TABLE_SIZE as nat, |i: int| i as u8)
}

/// A Pearson hash function: a permutation of the 256 byte values, applied
/// by iterated lookup.
pub struct PearsonHashFunction {
    aux_table: Vec<u8>,
}

impl PearsonHashFunction {
    /// The permutation table.
    pub closed spec fn table(&self) -> Seq<u8> {
        self.aux_table@
    }

    /// Validity: the table is a permutation of the byte values.
    pub open spec fn wf(&self) -> bool {
        is_permutation(self.table())
    }

    /// Build the identity permutation, then shuffle it with the generator:
    /// the table is exactly the shuffle fold of the generator's 256 draws
    /// with bounds 256 down to 1, and the generator ends in the stepped
    /// state (so a second table built from the same generator continues
    /// the sequence).
    pub fn new<R: DotNetRand>(rng: &mut R) -> (r: PearsonHashFunction)
        requires
            old(rng).inv(),
        ensures
            final(rng).inv(),
            r.wf(),
            r.table() == shuffle_spec::<R>(
                identity_table(),
                old(rng).model(),
                AUX_TABLE_SIZE as nat,
            ).0,
            final(rng).model() == shuffle_spec::<R>(
                identity_table(),
                old(rng).model(),
                AUX_TABLE_SIZE as nat,
            ).1,
    {
        let mut table: Vec<u8> = Vec::new();
        let mut i: usize = 0;
        while i < AUX_TABLE_SIZE
            invariant
                i <= AUX_TABLE_SIZE,
                table@.len() == i,
                forall|k: int| 0 <= k < i ==> table@[k] == k as u8,
            decreases AUX_TABLE_SIZE - i,
        {
            table.push(i as u8);
            i += 1;
        }
        proof {
            assert forall|v: u8| #[trigger] covers(table@, v) by {
                assert(table@[v as int] == v);
            }
        }
        proof {
            assert(table@ =~= identity_table());
        }
        shuffle(&mut table, rng);
        PearsonHashFunction { aux_table: table }
    }

    /// Re-shuffle the current permutation in place (not a fresh identity):
    /// the new table is the shuffle fold of the generator's 256 draws over
    /// the current one.
    pub fn shuffle<R: DotNetRand>(&mut self, rng: &mut R)
        requires
            old(self).wf(),
            old(rng).inv(),
        ensures
            final(self).wf(),
            final(rng).inv(),
            final(self).table() == shuffle_spec::<R>(
                old(self).table(),
                old(rng).model(),
                AUX_TABLE_SIZE as nat,
            ).0,
            final(rng).model() == shuffle_spec::<R>(
                old(self).table(),
                old(rng).model(),
                AUX_TABLE_SIZE as nat,
            ).1,
    {
        shuffle(&mut self.aux_table, rng);
    }

    /// Hash a byte string to a single byte by the Pearson fold.
    pub fn hash(&self, buf: &[u8]) -> (h: u8)
        requires
            self.wf(),
        ensures
            h == pearson_fold(self.table(), buf@, 0),
    {
        let mut h: u8 = 0;
        let mut i: usize = 0;
        proof {
            assert(buf@.skip(0) =~= buf@);
        }
        while i < buf.len()
            invariant
                self.wf(),
                i <= buf@.len(),
                pearson_fold(self.table(), buf@.skip(i as int), h) == pearson_fold(
                    self.table(),
                    buf@,
                    0,
                ),
            decreases buf@.len() - i,
        {
            let ghost pre = buf@.skip(i as int);
            h = self.aux_table[(h ^ buf[i]) as usize];
            proof {
                assert(pre.drop_first() =~= buf@.skip(i + 1));
                assert(pre.first() == buf@[i as int]);
            }
            i += 1;
        }
        proof {
            assert(buf@.skip(buf@.len() as int) =~= Seq::<u8>::empty());
        }
        h
    }

    /// The permutation table as raw bytes.
    pub fn aux_table(&self) -> (r: &Vec<u8>)
        ensures
            r@ == self.table(),
    {
        &self.aux_table
    }

    /// Wrap a caller-supplied table, accepted only if it is a permutation.
    pub fn from_table(table: Vec<u8>) -> (r: Option<PearsonHashFunction>)
        ensures
            is_permutation(table@) ==> (r matches Some(p) && p.table() == table@),
            !is_permutation(table@) ==> r is None,
    {
        if table.len() != AUX_TABLE_SIZE {
            return None;
        }
        let mut i: usize = 1;
        while i < AUX_TABLE_SIZE
            invariant
                1 <= i <= AUX_TABLE_SIZE,
                table@.len() == AUX_TABLE_SIZE,
                forall|x: int, y: int| 0 <= x < y < i ==> table@[x] != table@[y],
            decreases AUX_TABLE_SIZE - i,
        {
            let mut j: usize = 0;
            while j < i
                invariant
                    j <= i < AUX_TABLE_SIZE,
                    table@.len() == AUX_TABLE_SIZE,
                    forall|x: int| 0 <= x < j ==> table@[x] != table@[i as int],
                decreases i - j,
            {
                if table[j] == table[i] {
                    return None;
                }
                j += 1;
            }
            i += 1;
        }
        let mut v: usize = 0;
        while v < AUX_TABLE_SIZE
            invariant
                v <= AUX_TABLE_SIZE,
                table@.len() == AUX_TABLE_SIZE,
                forall|w: u8| (w as int) < v ==> #[trigger] covers(table@, w),
            decreases AUX_TABLE_SIZE - v,
        {
            let mut found = false;
            let mut k: usize = 0;
            while k < AUX_TABLE_SIZE
                invariant
                    k <= AUX_TABLE_SIZE,
                    v < AUX_TABLE_SIZE,
                    table@.len() == AUX_TABLE_SIZE,
                    found <==> exists|x: int| 0 <= x < k && (#[trigger] table@[x]) == v as u8,
                decreases AUX_TABLE_SIZE - k,
            {
                if table[k] == v as u8 {
                    found = true;
                }
                k += 1;
            }
            if !found {
                proof {
                    if is_permutation(table@) {
                        assert(covers(table@, v as u8));
                        let w = choose|i: int|
                            0 <= i < table@.len() && (#[trigger] table@[i]) == v as u8;
                        assert(exists|x: int| 0 <= x < k && (#[trigger] table@[x]) == v as u8);
                    }
                }
                return None;
            }
            v += 1;
        }
        Some(PearsonHashFunction { aux_table: table })
    }
}

/// Combine two single-byte hashes into a slot index in the table's address
/// space: first byte high, second byte low, masked.
pub open spec fn combine_hashes(h1: u8, h2: u8, mask: u16) -> u16 {
    (((h1 as u16) << 8) | (h2 as u16)) & mask
}

/// Slot index of a name under the pair of tables: uppercase the name, hash
/// with both tables, and combine with the first table's byte high.
pub fn hash_name(
    name: &[u8],
    phf1: &PearsonHashFunction,
    phf2: &PearsonHashFunction,
    mask: u16,
) -> (r: u16)
    requires
        phf1.wf(),
        phf2.wf(),
    ensures
        r == combine_hashes(
            pearson_fold(phf1.table(), upper_bytes(name@), 0),
            pearson_fold(phf2.table(), upper_bytes(name@), 0),
            mask,
        ),
{
    let bytes = uppercase_bytes(name);
    let h1: u16 = phf1.hash(bytes.as_slice()) as u16;
    let h2: u16 = phf2.hash(bytes.as_slice()) as u16;
    ((h1 << 8) | h2) & mask
}

/// Slot index with the tables' roles swapped: second table's byte high.
pub fn hash_name_swapped(
    name: &[u8],
    phf1: &PearsonHashFunction,
    phf2: &PearsonHashFunction,
    mask: u16,
) -> (r: u16)
    requires
        phf1.wf(),
        phf2.wf(),
    ensures
        r == combine_hashes(
            pearson_fold(phf2.table(), upper_bytes(name@), 0),
            pearson_fold(phf1.table(), upper_bytes(name@), 0),
            mask,
        ),
{
    let bytes = uppercase_bytes(name);
    let h1: u16 = phf2.hash(bytes.as_slice()) as u16;
    let h2: u16 = phf1.hash(bytes.as_slice()) as u16;
    ((h1 << 8) | h2) & mask
}

} // verus!
