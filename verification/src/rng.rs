//! Deterministic sequence generator.
//!
//! Reproduces a legacy subtractive pseudo-random algorithm: a 56-element
//! rotating state array with two advancing cursors.  The scaling of a raw
//! sample into `[0, max_exclusive)` reproduces, step by step, the rounding of
//! the legacy implementation's double-precision arithmetic, carried out here
//! exactly on integers: every intermediate product is rounded to a 53-bit
//! mantissa with round-half-to-even before the final truncation.

use vstd::prelude::*;
use vstd::arithmetic::power2::*;
use crate::pearson::DotNetRand;

verus! {

/// Wrap-around bound of the generator: a large prime-like constant.
pub const MBIG: i32 = 2147483647;
/// Additive constant used to warm the state array up from the seed.
pub const MSEED: i32 = 161803398;
/// 53-bit mantissa of the double-precision value nearest to 1/MBIG,
/// scaled so that the value equals INV_MBIG_MANTISSA / 2^83.
pub const INV_MBIG_MANTISSA: u64 = 4503599629467648;

/// Bring a difference of two values in [0, MBIG) back into [0, MBIG).
pub open spec fn wrap_mbig(x: int) -> int {
    if x < 0 {
        x + MBIG
    } else {
        x
    }
}

/// Number of binary digits of `p`.
pub open spec fn bitlen(p: nat) -> nat
    decreases p,
{
    if p == 0 {
        0
    } else {
        (1 + bitlen(p / 2)) as nat
    }
}

/// Round `p * 2^e` to a 53-bit mantissa, half to even: the rounding a
/// double-precision multiplication performs on an exact product.
/// Returns the mantissa and the new exponent.
pub open spec fn rn53(p: nat, e: int) -> (nat, int) {
    if bitlen(p) <= 53 {
        (p, e)
    } else {
        let sh = (bitlen(p) - 53) as nat;
        let q = p / pow2(sh);
        let rem = p % pow2(sh);
        let half = pow2((sh - 1) as nat);
        let q2 = if rem > half || (rem == half && q % 2 == 1) {
            (q + 1) as nat
        } else {
            q
        };
        if q2 == pow2(53) {
            (pow2(52), e + sh + 1)
        } else {
            (q2, e + sh)
        }
    }
}

/// The value `next` returns for a raw sample `ret` and bound `m >= 2`:
/// the exact result of truncating `(ret * (1/MBIG)) * m` computed in
/// double precision.
pub open spec fn scale_spec(ret: int, m: int) -> int {
    let p = (ret * (INV_MBIG_MANTISSA as int)) as nat;
    let s = rn53(p, -83);
    let mr = rn53(m as nat, 0);
    let t = rn53(s.0 * mr.0, s.1 + mr.1);
    if t.1 >= 0 {
        (t.0 * pow2(t.1 as nat)) as int
    } else {
        (t.0 / pow2((0 - t.1) as nat)) as int
    }
}

/// State of the warm-up's cell-filling loop before round `i` (1 <= i <= 55):
/// the array, then the two walking values `mj` and `mk`.
pub open spec fn fill_state(seed: int, i: int) -> (Seq<i32>, i32, i32)
    decreases i,
{
    if i <= 1 {
        let mj = wrap_mbig(MSEED - (if seed < 0 { -seed } else { seed }));
        (Seq::new(56, |k: int| if k == 55 { mj as i32 } else { 0i32 }), mj as i32, 1i32)
    } else {
        let prev = fill_state(seed, i - 1);
        let ii = (21 * (i - 1)) % 55;
        (prev.0.update(ii, prev.2), prev.2, wrap_mbig(prev.1 - prev.2) as i32)
    }
}

/// State array after `k` single-cell stabilization steps (0 <= k <= 220):
/// four passes over indices 1..55, flattened.
pub open spec fn stab_state(seed: int, k: int) -> Seq<i32>
    decreases k,
{
    if k <= 0 {
        fill_state(seed, 55).0
    } else {
        let s = stab_state(seed, k - 1);
        let i = 1 + ((k - 1) % 55);
        s.update(i, wrap_mbig(s[i] - s[1 + ((i + 30) % 55)]) as i32)
    }
}

/// The fully warmed-up state array for a seed.
pub open spec fn seed_state(seed: int) -> Seq<i32> {
    stab_state(seed, 220)
}

/// One step of a rotating cursor over indices 1..=55.
pub open spec fn adv_cursor(i: int) -> int {
    if i + 1 >= 56 {
        1
    } else {
        i + 1
    }
}

/// The deterministic sequence generator.
pub struct DotNetRandom {
    inext: usize,
    inextp: usize,
    seed_array: Vec<i32>,
}

impl DotNetRandom {
    /// The 56-element state array.
    pub closed spec fn state(&self) -> Seq<i32> {
        self.seed_array@
    }

    /// First rotating cursor.
    pub closed spec fn ix(&self) -> int {
        self.inext as int
    }

    /// Second rotating cursor.
    pub closed spec fn ixp(&self) -> int {
        self.inextp as int
    }

    /// Validity: 56 cells, both cursors in range, every cell in [0, MBIG).
    pub closed spec fn wf(&self) -> bool {
        &&& self.seed_array@.len() == 56
        &&& self.inext < 56
        &&& self.inextp < 56
        &&& forall|j: int| 0 <= j < 56 ==> 0 <= #[trigger] self.seed_array@[j] < MBIG
    }

    /// The raw sample the next state advance will produce.
    pub open spec fn peek_sample(&self) -> int {
        wrap_mbig(self.state()[adv_cursor(self.ix())] - self.state()[adv_cursor(self.ixp())])
    }

    /// Initialize the generator from a signed 32-bit seed with the legacy
    /// warm-up: seed one cell from MSEED minus the seed's absolute value,
    /// fill the rest by a walking subtraction, then stabilize with four
    /// subtractive passes.
    pub fn new(seed: i32) -> (r: DotNetRandom)
        requires
            seed != i32::MIN,
        ensures
            r.wf(),
            r.state() == seed_state(seed as int),
            r.ix() == 0,
            r.ixp() == 21,
    {
        let mut seed_array: Vec<i32> = Vec::new();
        let mut z: usize = 0;
        while z < 56
            invariant
                z <= 56,
                seed_array@.len() == z,
                forall|j: int| 0 <= j < z ==> seed_array@[j] == 0i32,
            decreases 56 - z,
        {
            seed_array.push(0i32);
            z += 1;
        }
        let subtraction: i32 = if seed < 0 { -seed } else { seed };
        let mut mj: i32 = MSEED - subtraction;
        if mj < 0 {
            mj = mj + MBIG;
        }
        seed_array[55] = mj;
        let mut mk: i32 = 1;
        proof {
            assert(seed_array@ =~= fill_state(seed as int, 1).0);
        }
        let mut i: usize = 1;
        while i < 55
            invariant
                1 <= i <= 55,
                seed_array@.len() == 56,
                seed_array@ == fill_state(seed as int, i as int).0,
                mj == fill_state(seed as int, i as int).1,
                mk == fill_state(seed as int, i as int).2,
                0 <= mj < MBIG,
                0 <= mk < MBIG,
                forall|j: int| 0 <= j < 56 ==> 0 <= #[trigger] seed_array@[j] < MBIG,
            decreases 55 - i,
        {
            let ii: usize = (21 * i) % 55;
            seed_array[ii] = mk;
            let diff: i32 = mj - mk;
            mj = mk;
            mk = if diff < 0 { diff + MBIG } else { diff };
            i += 1;
            proof {
                assert(seed_array@ == fill_state(seed as int, i as int).0);
            }
        }
        let mut pass: usize = 0;
        while pass < 4
            invariant
                pass <= 4,
                seed_array@.len() == 56,
                seed_array@ == stab_state(seed as int, (pass * 55) as int),
                forall|j: int| 0 <= j < 56 ==> 0 <= #[trigger] seed_array@[j] < MBIG,
            decreases 4 - pass,
        {
            let mut i2: usize = 1;
            while i2 < 56
                invariant
                    1 <= i2 <= 56,
                    pass < 4,
                    seed_array@.len() == 56,
                    seed_array@ == stab_state(seed as int, (pass * 55 + i2 - 1) as int),
                    forall|j: int| 0 <= j < 56 ==> 0 <= #[trigger] seed_array@[j] < MBIG,
                decreases 56 - i2,
            {
                let other: usize = 1 + (i2 + 30) % 55;
                let d: i32 = seed_array[i2] - seed_array[other];
                seed_array[i2] = if d < 0 { d + MBIG } else { d };
                proof {
                    let k = pass * 55 + i2 - 1;
                    assert((k as int) % 55 == (i2 - 1) as int % 55) by (nonlinear_arith)
                        requires
                            k == pass * 55 + i2 - 1,
                            pass < 4,
                            1 <= i2 < 56,
                    ;
                    assert(seed_array@ == stab_state(seed as int, k as int + 1));
                }
                i2 += 1;
            }
            pass += 1;
            proof {
                assert(pass * 55 == (pass - 1) * 55 + 56 - 1) by (nonlinear_arith)
                    requires
                        1 <= pass <= 4,
                ;
            }
        }
        DotNetRandom { inext: 0, inextp: 21, seed_array }
    }

    /// Advance the state once: step both cursors, store the wrapped
    /// difference of the two cells they reach, and return it.
    fn internal_sample(&mut self) -> (ret: i32)
        requires
            old(self).wf(),
        ensures
            final(self).wf(),
            0 <= ret < MBIG,
            ret as int == old(self).peek_sample(),
            final(self).state() == old(self).state().update(adv_cursor(old(self).ix()), ret),
            final(self).ix() == adv_cursor(old(self).ix()),
            final(self).ixp() == adv_cursor(old(self).ixp()),
    {
        let mut inext: usize = self.inext + 1;
        let mut inextp: usize = self.inextp + 1;
        if inext >= 56 {
            inext = 1;
        }
        if inextp >= 56 {
            inextp = 1;
        }
        let mut ret: i32 = self.seed_array[inext] - self.seed_array[inextp];
        if ret < 0 {
            ret = ret + MBIG;
        }
        self.seed_array[inext] = ret;
        self.inext = inext;
        self.inextp = inextp;
        ret
    }

    /// Draw the next value in `[0, max_exclusive)`.  For a bound of at most
    /// one the result is zero and no state is consumed; otherwise one raw
    /// sample is drawn and scaled exactly as the legacy double-precision
    /// code would.
    pub fn next(&mut self, max_exclusive: usize) -> (r: usize)
        requires
            old(self).wf(),
        ensures
            final(self).wf(),
            max_exclusive <= 1 ==> r == 0 && *final(self) == *old(self),
            max_exclusive >= 2 ==> {
                &&& r as int == scale_spec(old(self).peek_sample(), max_exclusive as int)
                &&& final(self).state() == old(self).state().update(
                    adv_cursor(old(self).ix()),
                    old(self).peek_sample() as i32,
                )
                &&& final(self).ix() == adv_cursor(old(self).ix())
                &&& final(self).ixp() == adv_cursor(old(self).ixp())
            },
            max_exclusive >= 1 ==> r < max_exclusive,
    {
        if max_exclusive <= 1 {
            return 0;
        }
        let ret = self.internal_sample();
        scale(ret, max_exclusive)
    }
}

/// The raw sample the model's next advance produces: the wrapped
/// difference of the two cells the stepped cursors reach.
pub open spec fn model_sample(m: Seq<int>) -> int {
    wrap_mbig(m[2 + adv_cursor(m[0])] - m[2 + adv_cursor(m[1])])
}

impl DotNetRand for DotNetRandom {
    closed spec fn inv(&self) -> bool {
        self.wf()
    }

    closed spec fn model(&self) -> Seq<int> {
        seq![self.ix(), self.ixp()] + self.state().map_values(|x: i32| x as int)
    }

    closed spec fn val_of(m: Seq<int>, max_exclusive: usize) -> usize {
        if max_exclusive <= 1 {
            0
        } else {
            scale_spec(model_sample(m), max_exclusive as int) as usize
        }
    }

    closed spec fn step_of(m: Seq<int>, max_exclusive: usize) -> Seq<int> {
        if max_exclusive <= 1 {
            m
        } else {
            seq![adv_cursor(m[0]), adv_cursor(m[1])] + m.skip(2).update(
                adv_cursor(m[0]),
                model_sample(m),
            )
        }
    }

    fn next(&mut self, max_exclusive: usize) -> (r: usize) {
        let ghost m0 = self.model();
        let ghost pre = *self;
        let r = self.next(max_exclusive);
        proof {
            assert(m0.skip(2) =~= pre.state().map_values(|x: i32| x as int));
            assert(m0[0] == pre.ix() && m0[1] == pre.ixp());
            assert(model_sample(m0) == pre.peek_sample());
            if max_exclusive >= 2 {
                assert(self.model() =~= Self::step_of(m0, max_exclusive)) by {
                    assert(self.state() == pre.state().update(
                        adv_cursor(pre.ix()),
                        pre.peek_sample() as i32,
                    ));
                    assert(self.state().map_values(|x: i32| x as int) =~= pre.state().map_values(
                        |x: i32| x as int,
                    ).update(adv_cursor(pre.ix()), pre.peek_sample()));
                }
            }
        }
        r
    }
}

/// 2^k as a 128-bit integer.
fn pow2_u128(k: u32) -> (r: u128)
    requires
        k <= 127,
    ensures
        r == pow2(k as nat),
        r >= 1,
{
    proof {
        lemma2_to64();
    }
    let mut i: u32 = 0;
    let mut r: u128 = 1;
    while i < k
        invariant
            i <= k <= 127,
            r == pow2(i as nat),
        decreases k - i,
    {
        proof {
            lemma_pow2_127();
            if (i as nat) < 126 {
                lemma_pow2_strictly_increases(i as nat, 126);
            }
            lemma_pow2_unfold((i + 1) as nat);
        }
        r = r * 2;
        i += 1;
    }
    proof {
        lemma_pow2_pos(k as nat);
    }
    r
}

/// pow2(126) and pow2(127) as numbers.
proof fn lemma_pow2_127()
    ensures
        pow2(126) == 0x40000000000000000000000000000000,
        pow2(127) == 0x80000000000000000000000000000000,
{
    lemma2_to64();
    lemma2_to64_rest();
    lemma_pow2_adds(63, 63);
    lemma_pow2_adds(63, 64);
}

/// Number of binary digits, executable form.
fn bitlen_u128(p: u128) -> (n: u32)
    ensures
        n == bitlen(p as nat),
        n <= 128,
{
    proof {
        lemma2_to64();
        lemma_pow2_127();
        lemma_pow2_adds(127, 1);
        lemma_bitlen_le(p as nat, 128);
    }
    let mut x: u128 = p;
    let mut n: u32 = 0;
    while x > 0
        invariant
            n + bitlen(x as nat) == bitlen(p as nat),
            bitlen(p as nat) <= 128,
        decreases x,
    {
        x = x / 2;
        n = n + 1;
    }
    n
}

/// A number below 2^k has at most k binary digits.
proof fn lemma_bitlen_le(p: nat, k: nat)
    requires
        p < pow2(k),
    ensures
        bitlen(p) <= k,
    decreases k,
{
    lemma_pow2_pos(k);
    if p == 0 {
    } else if k == 0 {
        assert(pow2(0) == 1) by {
            lemma2_to64();
        }
    } else {
        assert(pow2(k) == 2 * pow2((k - 1) as nat)) by {
            lemma_pow2_unfold(k);
        }
        lemma_bitlen_le(p / 2, (k - 1) as nat);
    }
}

/// A positive number with b binary digits lies in [2^(b-1), 2^b).
proof fn lemma_bitlen_range(p: nat)
    requires
        p > 0,
    ensures
        pow2((bitlen(p) - 1) as nat) <= p < pow2(bitlen(p)),
    decreases p,
{
    if p / 2 == 0 {
        assert(p == 1);
        assert(bitlen(p) == 1 + bitlen(p / 2));
        assert(bitlen(0) == 0);
        assert(pow2(0) == 1 && pow2(1) == 2) by {
            lemma2_to64();
        }
    } else {
        let h = p / 2;
        lemma_bitlen_range(h);
        let b = bitlen(p);
        assert(b == 1 + bitlen(h));
        assert(2 * h <= p < 2 * h + 2) by (nonlinear_arith)
            requires
                h == p / 2,
        ;
        lemma_pow2_unfold((b - 1) as nat);
        lemma_pow2_unfold(b);
        assert(pow2((b - 2) as nat) <= h);
        assert(pow2((b - 1) as nat) == 2 * pow2((b - 2) as nat));
        assert(pow2((b - 1) as nat) <= 2 * h);
        assert(h < pow2((b - 1) as nat));
        assert(pow2(b) == 2 * pow2((b - 1) as nat));
        assert(p < 2 * h + 2);
        assert(2 * h + 2 <= 2 * pow2((b - 1) as nat));
        assert(p < pow2(b));
        assert(pow2((b - 1) as nat) <= p);
    }
}

/// Round a 128-bit integer scaled by 2^e to a 53-bit mantissa,
/// half to even.  Executable mirror of `rn53`.
fn rn53_exec(p: u128, e: i32) -> (r: (u64, i32))
    requires
        (p as nat) < pow2(110),
        -100 <= e <= 100,
    ensures
        r.0 as nat == rn53(p as nat, e as int).0,
        r.1 as int == rn53(p as nat, e as int).1,
        r.0 < pow2(53),
        e <= r.1,
        r.1 <= e + (if bitlen(p as nat) <= 53 { 0int } else { bitlen(p as nat) - 52 }),
        (r.0 as nat) * pow2((r.1 - e) as nat) <= (p as nat) + pow2((r.1 - e) as nat),
{
    proof {
        lemma_bitlen_le(p as nat, 110);
        lemma2_to64();
        lemma2_to64_rest();
    }
    let n = bitlen_u128(p);
    if n <= 53 {
        proof {
            if p > 0 {
                lemma_bitlen_range(p as nat);
                if (bitlen(p as nat)) < 53 {
                    lemma_pow2_strictly_increases(bitlen(p as nat), 53);
                }
            }
            lemma_pow2_pos(53);
            assert(pow2(0) == 1);
            assert((p as nat) * pow2(0) <= (p as nat) + pow2(0)) by (nonlinear_arith)
                requires
                    pow2(0) == 1,
            ;
        }
        (p as u64, e)
    } else {
        proof {
            lemma_pow2_pos(110);
        }
        let sh: u32 = n - 53;
        let pw = pow2_u128(sh);
        proof {
            lemma_pow2_pos(sh as nat);
            lemma_pow2_unfold(sh as nat);
        }
        let q: u128 = p / pw;
        let rem: u128 = p % pw;
        let half: u128 = pw / 2;
        proof {
            lemma_bitlen_range(p as nat);
            lemma_pow2_adds(sh as nat, 53);
            assert((p as nat) / pow2(sh as nat) < pow2(53)) by (nonlinear_arith)
                requires
                    (p as nat) < pow2(sh as nat) * pow2(53),
                    pow2(sh as nat) > 0,
            ;
        }
        let q2: u128 = if rem > half || (rem == half && q % 2 == 1) {
            q + 1
        } else {
            q
        };
        proof {
            vstd::arithmetic::div_mod::lemma_fundamental_div_mod(p as int, pw as int);
            assert((q2 as nat) * pow2(sh as nat) <= (p as nat) + pow2((sh - 1) as nat))
                by (nonlinear_arith)
                requires
                    pw == pow2(sh as nat),
                    pow2(sh as nat) == 2 * pow2((sh - 1) as nat),
                    p == (q as int) * (pw as int) + rem,
                    rem < pw,
                    half == pw / 2,
                    q2 == q || (q2 == q + 1 && rem >= half),
            ;
            lemma_pow2_strictly_increases((sh - 1) as nat, (sh + 1) as nat);
            lemma_pow2_strictly_increases((sh - 1) as nat, sh as nat);
            assert((q2 as nat) * pow2(sh as nat) <= (p as nat) + pow2(sh as nat));
        }
        if q2 == 9007199254740992 {
            proof {
                assert(pow2(53) == 9007199254740992 && pow2(52) == 4503599627370496) by {
                    lemma2_to64_rest();
                }
                lemma_pow2_strictly_increases(52, 53);
                lemma_pow2_unfold((sh + 1) as nat);
                assert((4503599627370496nat) * pow2((sh + 1) as nat) == (q2 as nat) * pow2(
                    sh as nat,
                )) by (nonlinear_arith)
                    requires
                        q2 == 9007199254740992,
                        pow2((sh + 1) as nat) == 2 * pow2(sh as nat),
                ;
            }
            (4503599627370496u64, e + (sh as i32) + 1)
        } else {
            (q2 as u64, e + (sh as i32))
        }
    }
}


/// The rounded product of a scaled sample and the bound `m` stays strictly
/// below `m`: the sample factor is at most 1 - 2^-32 of one, and none of
/// the three roundings can bridge that gap.
proof fn lemma_scaled_value_below(
    p: nat,
    sm: nat,
    se: int,
    mm: nat,
    em: int,
    tm: nat,
    te: int,
    m: nat,
)
    requires
        2 <= m < pow2(64),
        p <= 0x7FFFFFFE * 4503599629467648,
        sm * pow2((se + 83) as nat) <= p + pow2((se + 83) as nat),
        -83 <= se,
        se + 83 <= 32,
        sm < pow2(53),
        mm * pow2(em as nat) <= m + pow2(em as nat),
        0 <= em <= 12,
        em == 0 ==> mm == m,
        em > 0 ==> m >= pow2(53),
        mm < pow2(53),
        tm * pow2((te - se - em) as nat) <= sm * mm + pow2((te - se - em) as nat),
        se + em <= te,
        te <= 15,
        te <= se + em + (if bitlen(sm * mm) <= 53 {
            0int
        } else {
            bitlen(sm * mm) - 52
        }),
    ensures
        tm * pow2((te + 83) as nat) < m * pow2(83),
{
    lemma2_to64();
    lemma2_to64_rest();
    lemma_pow2_adds(64, 19);
    lemma_pow2_adds(32, 19);
    lemma_pow2_adds(32, 51);
    // the sample value is at most 2^83 - 2^51
    let vs = sm * pow2((se + 83) as nat);
    assert(pow2((se + 83) as nat) <= pow2(32)) by {
        if se + 83 < 32 {
            lemma_pow2_strictly_increases((se + 83) as nat, 32);
        }
    }
    assert(vs <= p + pow2(32));
    assert(vs <= pow2(83) - pow2(51)) by {
        assert(pow2(83) == pow2(64) * pow2(19));
        assert(pow2(51) == pow2(32) * pow2(19));
    }
    // decompose the final exponent
    let dq = (te - se - em) as nat;
    let base = (se + em + 83) as nat;
    lemma_pow2_adds(dq, base);
    assert((te + 83) as nat == dq + base);
    assert(tm * pow2((te + 83) as nat) == (tm * pow2(dq)) * pow2(base)) by (nonlinear_arith)
        requires
            pow2((te + 83) as nat) == pow2(dq) * pow2(base),
    ;
    lemma_pow2_pos(base);
    assert((tm * pow2(dq)) * pow2(base) <= (sm * mm + pow2(dq)) * pow2(base))
        by (nonlinear_arith)
        requires
            tm * pow2(dq) <= sm * mm + pow2(dq),
            pow2(base) > 0,
    ;
    lemma_pow2_adds(dq, base);
    assert((sm * mm + pow2(dq)) * pow2(base) == sm * mm * pow2(base) + pow2((te + 83) as nat))
        by (nonlinear_arith)
        requires
            pow2(dq) * pow2(base) == pow2((te + 83) as nat),
    ;
    // split the sample and bound factors
    lemma_pow2_adds((se + 83) as nat, em as nat);
    assert(base == (se + 83) as nat + em as nat);
    assert(sm * mm * pow2(base) == vs * (mm * pow2(em as nat))) by (nonlinear_arith)
        requires
            pow2(base) == pow2((se + 83) as nat) * pow2(em as nat),
            vs == sm * pow2((se + 83) as nat),
    ;
    let vm = mm * pow2(em as nat);
    assert(vs * vm <= (pow2(83) - pow2(51)) * vm) by (nonlinear_arith)
        requires
            vs <= pow2(83) - pow2(51),
            pow2(51) < pow2(83),
    ;
    if em == 0 {
        assert(vm == m) by (nonlinear_arith)
            requires
                vm == mm * pow2(0),
                pow2(0) == 1,
                mm == m,
        ;
        // te is at most bitlen(m) - 50
        let bm = bitlen(m);
        lemma_bitlen_range(m);
        assert(sm * mm < pow2(53) * pow2(bm)) by (nonlinear_arith)
            requires
                sm < pow2(53),
                mm < pow2(bm),
                mm == m,
                pow2(bm) > 0,
        ;
        lemma_pow2_adds(53, bm);
        lemma_bitlen_le(sm * mm, 53 + bm);
        assert(te <= bm - 50);
        assert(pow2((te + 83) as nat) <= pow2((bm + 33) as nat)) by {
            if te + 83 < bm + 33 {
                lemma_pow2_strictly_increases((te + 83) as nat, (bm + 33) as nat);
            }
        }
        lemma_pow2_adds((bm - 1) as nat, 51);
        lemma_pow2_strictly_increases((bm + 33) as nat, (bm + 50) as nat);
        assert(m * pow2(51) >= pow2((bm + 50) as nat)) by (nonlinear_arith)
            requires
                m >= pow2((bm - 1) as nat),
                pow2((bm + 50) as nat) == pow2((bm - 1) as nat) * pow2(51),
                pow2(51) > 0,
        ;
        assert((pow2(83) - pow2(51)) * m == m * pow2(83) - m * pow2(51)) by (nonlinear_arith);
        assert(tm * pow2((te + 83) as nat) <= m * pow2(83) - m * pow2(51) + pow2(
            (te + 83) as nat,
        ));
        assert(tm * pow2((te + 83) as nat) < m * pow2(83));
    } else {
        assert(pow2(em as nat) <= pow2(12)) by {
            if em < 12 {
                lemma_pow2_strictly_increases(em as nat, 12);
            }
        }
        assert(vm <= m + pow2(12));
        assert((pow2(83) - pow2(51)) * vm <= (pow2(83) - pow2(51)) * (m + pow2(12)))
            by (nonlinear_arith)
            requires
                vm <= m + pow2(12),
                pow2(51) < pow2(83),
        ;
        lemma_pow2_adds(83, 12);
        assert((pow2(83) - pow2(51)) * (m + pow2(12)) <= m * pow2(83) - m * pow2(51) + pow2(95))
            by (nonlinear_arith)
            requires
                pow2(83) * pow2(12) == pow2(95),
                pow2(51) > 0,
                pow2(12) > 0,
        ;
        assert(pow2((te + 83) as nat) <= pow2(98)) by {
            if te + 83 < 98 {
                lemma_pow2_strictly_increases((te + 83) as nat, 98);
            }
        }
        lemma_pow2_adds(53, 51);
        assert(m * pow2(51) >= pow2(104)) by (nonlinear_arith)
            requires
                m >= pow2(53),
                pow2(104) == pow2(53) * pow2(51),
                pow2(51) > 0,
        ;
        lemma_pow2_adds(95, 9);
        lemma_pow2_adds(98, 6);
        lemma_pow2_strictly_increases(95, 103);
        lemma_pow2_strictly_increases(98, 103);
        lemma_pow2_strictly_increases(103, 104);
        assert(pow2(95) + pow2(98) < pow2(104)) by {
            lemma_pow2_adds(103, 1);
        }
        assert(tm * pow2((te + 83) as nat) < m * pow2(83));
    }
}

/// Scale a raw sample into `[0, m)` exactly as the legacy double-precision
/// computation does: round `ret * (1/MBIG)` and the product with `m` each to
/// 53 bits, then truncate toward zero.
fn scale(ret: i32, m: usize) -> (r: usize)
    requires
        0 <= ret < MBIG,
        m >= 2,
    ensures
        r as int == scale_spec(ret as int, m as int),
        r < m,
{
    proof {
        lemma2_to64();
        lemma2_to64_rest();
        lemma_pow2_adds(55, 55);
        lemma_pow2_adds(31, 53);
        lemma_pow2_adds(84, 26);
        assert((ret as nat) * (INV_MBIG_MANTISSA as nat) < pow2(31) * pow2(53)) by (nonlinear_arith)
            requires
                0 <= (ret as nat) < pow2(31),
                (INV_MBIG_MANTISSA as nat) < pow2(53),
        ;
        lemma_pow2_strictly_increases(84, 110);
    }
    let p: u128 = (ret as u128) * (INV_MBIG_MANTISSA as u128);
    let sr = rn53_exec(p, -83);
    proof {
        lemma_pow2_adds(64, 46);
        lemma_bitlen_le(m as nat, 64);
        lemma_pow2_strictly_increases(64, 110);
        lemma_bitlen_le(p as nat, 84);
    }
    let mr = rn53_exec(m as u128, 0);
    proof {
        lemma_pow2_adds(53, 53);
        assert((sr.0 as nat) * (mr.0 as nat) < pow2(53) * pow2(53)) by (nonlinear_arith)
            requires
                (sr.0 as nat) < pow2(53),
                (mr.0 as nat) < pow2(53),
        ;
        lemma_pow2_strictly_increases(106, 110);
        lemma_bitlen_le((sr.0 as nat) * (mr.0 as nat), 106);
    }
    let q: u128 = (sr.0 as u128) * (mr.0 as u128);
    let tr = rn53_exec(q, sr.1 + mr.1);
    proof {
        assert(tr.1 <= 15);
        assert((p as nat) <= 0x7FFFFFFE * 4503599629467648) by (nonlinear_arith)
            requires
                p == (ret as nat) * (INV_MBIG_MANTISSA as nat),
                (ret as nat) <= 0x7FFFFFFE,
                INV_MBIG_MANTISSA == 4503599629467648,
        ;
        if bitlen(m as nat) <= 53 {
            assert(mr.0 == m && mr.1 == 0);
        } else {
            lemma_bitlen_range(m as nat);
            if bitlen(m as nat) - 1 > 53 {
                lemma_pow2_strictly_increases(53, (bitlen(m as nat) - 1) as nat);
            }
            assert((m as nat) >= pow2(53));
            assert(mr.1 >= 1);
        }
        lemma_scaled_value_below(
            p as nat,
            sr.0 as nat,
            sr.1 as int,
            mr.0 as nat,
            mr.1 as int,
            tr.0 as nat,
            tr.1 as int,
            m as nat,
        );
    }
    let t: u128 = if tr.1 >= 0 {
        proof {
            lemma_pow2_127();
            if tr.1 < 15 {
                lemma_pow2_strictly_increases(tr.1 as nat, 15);
            }
            lemma_pow2_adds(53, 15);
            assert((tr.0 as nat) * pow2(tr.1 as nat) < pow2(68)) by (nonlinear_arith)
                requires
                    (tr.0 as nat) < pow2(53),
                    pow2(tr.1 as nat) <= pow2(15),
                    pow2(53) * pow2(15) == pow2(68),
                    pow2(15) > 0,
            ;
            lemma_pow2_strictly_increases(68, 126);
        }
        (tr.0 as u128) * pow2_u128(tr.1 as u32)
    } else {
        (tr.0 as u128) / pow2_u128((-tr.1) as u32)
    };
    proof {
        lemma_pow2_pos(83);
        lemma_pow2_pos((tr.1 + 83) as nat);
        if tr.1 >= 0 {
            lemma_pow2_adds(tr.1 as nat, 83);
            assert((t as nat) * pow2(83) == (tr.0 as nat) * pow2((tr.1 + 83) as nat))
                by (nonlinear_arith)
                requires
                    (t as nat) == (tr.0 as nat) * pow2(tr.1 as nat),
                    pow2((tr.1 + 83) as nat) == pow2(tr.1 as nat) * pow2(83),
            ;
        } else {
            let pw = pow2((0 - tr.1) as nat);
            lemma_pow2_pos((0 - tr.1) as nat);
            lemma_pow2_adds((0 - tr.1) as nat, (tr.1 + 83) as nat);
            assert((t as nat) * pw <= (tr.0 as nat)) by (nonlinear_arith)
                requires
                    (t as nat) == (tr.0 as nat) / pw,
                    pw > 0,
            ;
            assert((t as nat) * pow2(83) <= (tr.0 as nat) * pow2((tr.1 + 83) as nat))
                by (nonlinear_arith)
                requires
                    (t as nat) * pw <= (tr.0 as nat),
                    pw * pow2((tr.1 + 83) as nat) == pow2(83),
                    pow2((tr.1 + 83) as nat) > 0,
            ;
        }
        assert((t as nat) < (m as nat)) by (nonlinear_arith)
            requires
                (t as nat) * pow2(83) < (m as nat) * pow2(83),
                pow2(83) > 0,
        ;
    }
    t as usize
}

} // verus!
