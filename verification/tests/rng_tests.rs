use phashgen::rng::DotNetRandom;
use phashgen::pearson::DotNetRand;

/// Straightforward reimplementation of the legacy generator in
/// double-precision arithmetic, used to cross-check the library's exact
/// integer emulation of the same rounding.
struct FloatReference {
    inext: usize,
    inextp: usize,
    seed_array: [i64; 56],
}

impl FloatReference {
    const MBIG: i64 = 2147483647;
    const MSEED: i64 = 161803398;

    fn new(seed: i32) -> FloatReference {
        let mut seed_array = [0i64; 56];
        let mut mj = Self::MSEED - (seed as i64).abs();
        if mj < 0 {
            mj += Self::MBIG;
        }
        seed_array[55] = mj;
        let mut mk: i64 = 1;
        for i in 1..55 {
            let ii = (21 * i) % 55;
            seed_array[ii] = mk;
            mk = mj - mk;
            if mk < 0 {
                mk += Self::MBIG;
            }
            mj = seed_array[ii];
        }
        for _ in 0..4 {
            for i in 1..56 {
                seed_array[i] -= seed_array[1 + (i + 30) % 55];
                if seed_array[i] < 0 {
                    seed_array[i] += Self::MBIG;
                }
            }
        }
        FloatReference { inext: 0, inextp: 21, seed_array }
    }

    fn internal_sample(&mut self) -> i64 {
        let mut inext = self.inext + 1;
        let mut inextp = self.inextp + 1;
        if inext >= 56 {
            inext = 1;
        }
        if inextp >= 56 {
            inextp = 1;
        }
        let mut ret = self.seed_array[inext] - self.seed_array[inextp];
        if ret < 0 {
            ret += Self::MBIG;
        }
        self.seed_array[inext] = ret;
        self.inext = inext;
        self.inextp = inextp;
        ret
    }

    fn next(&mut self, max_exclusive: usize) -> usize {
        if max_exclusive <= 1 {
            return 0;
        }
        let sample = self.internal_sample() as f64 * (1.0 / Self::MBIG as f64);
        (sample * max_exclusive as f64) as usize
    }
}

#[test]
fn fixed_seed_outputs_repeat() {
    let mut a = DotNetRandom::new(135960);
    let mut b = DotNetRandom::new(135960);
    for k in 0..1000usize {
        let bound = 2 + (k % 300);
        assert_eq!(a.next(bound), b.next(bound));
    }
}

#[test]
fn matches_double_precision_reference() {
    let seeds = [0i32, 1, 2, 42, 135960, -12345, 2147483646, -2147483647];
    let bounds = [2usize, 3, 7, 10, 55, 256, 1000, 65536, 1048576];
    for &seed in &seeds {
        let mut exact = DotNetRandom::new(seed);
        let mut float = FloatReference::new(seed);
        for k in 0..400usize {
            let bound = bounds[k % bounds.len()];
            let got = exact.next(bound);
            let want = float.next(bound);
            assert_eq!(got, want, "seed {} draw {} bound {}", seed, k, bound);
            assert!(got < bound);
        }
    }
}

#[test]
fn small_bounds_consume_no_state() {
    let mut a = DotNetRandom::new(7);
    let mut b = DotNetRandom::new(7);
    assert_eq!(a.next(0), 0);
    assert_eq!(a.next(1), 0);
    // a drew nothing, so both generators continue in lockstep
    for _ in 0..100 {
        assert_eq!(a.next(256), b.next(256));
    }
}

#[test]
fn trait_draws_stay_in_range() {
    let mut rng = DotNetRandom::new(99);
    for _ in 0..500 {
        let v = DotNetRand::next(&mut rng, 10);
        assert!(v < 10);
    }
}

#[test]
fn draw_all_matches_single_draws() {
    let mut a = DotNetRandom::new(31415);
    let mut b = DotNetRandom::new(31415);
    let bounds: Vec<usize> = vec![2, 256, 7, 1, 0, 1000, 65536, 10, 10, 3];
    let drawn = phashgen::pearson::draw_all(&mut a, &bounds);
    for (k, &bound) in bounds.iter().enumerate() {
        assert_eq!(drawn[k], b.next(bound));
    }
    // both generators end in the same state
    assert_eq!(a.next(1000), b.next(1000));
}
