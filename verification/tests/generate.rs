use implicants::generate;

fn run(sample: impl Fn(u32) -> bool, arity: u32) -> Vec<(u32, u32, bool)> {
    let mut buffer: Vec<(u32, u32, bool)> = Vec::new();
    {
        let mut store_it = |mask_gap: u32, value: u32, is_prime: bool| {
            buffer.push((mask_gap, value, is_prime));
        };
        generate(&sample, &mut store_it, arity);
    }
    buffer.sort();
    buffer
}

#[test]
fn gen_mod3_arity3() {
    let got = run(|v| v % 3 == 0, 3);
    assert_eq!(got, vec![(0, 0, true), (0, 3, true), (0, 6, true)]);
}

#[test]
fn gen_mux_arity3() {
    // 2-of-3 multiplexer, sample(v) = bit of v at position 1 + (v & 1):
    // on-set {0b010, 0b101, 0b110, 0b111}, checked by exhaustion. The
    // primes are the three rank-1 cubes; no pair of them merges further.
    let got = run(|v| 1 == 1 & (v >> (1 + (v & 1))), 3);
    assert_eq!(
        got,
        vec![
            (0b000, 0b010, false),
            (0b000, 0b101, false),
            (0b000, 0b110, false),
            (0b000, 0b111, false),
            (0b001, 0b110, true),
            (0b010, 0b101, true),
            (0b100, 0b010, true),
        ]
    );
}

#[test]
fn gen_true_arity3() {
    let got = run(|_| true, 3);
    // Every canonical sub-cube is an implicant: 3^3 of them.
    assert_eq!(got.len(), 27);
    let primes: Vec<_> = got.iter().filter(|t| t.2).collect();
    assert_eq!(primes, vec![&(0b111, 0b000, true)]);
}

#[test]
fn gen_false_arity3() {
    let got = run(|_| false, 3);
    assert_eq!(got, vec![]);
}

#[test]
fn gen_fixture_arity3() {
    let got = run(|v| v == 0b110 || v == 0b111 || v == 0b000, 3);
    assert_eq!(
        got,
        vec![
            (0b000, 0b000, true),
            (0b000, 0b110, false),
            (0b000, 0b111, false),
            (0b001, 0b110, true),
        ]
    );
}

#[test]
fn gen_majority_of_9() {
    // Majority-of-9: every rank-4 cube whose five fixed bits are all 1 is a
    // prime implicant, and there are C(9, 4) = 126 of them.
    let got = run(|v| v.count_ones() > 4, 9);
    let primes: Vec<_> = got.iter().filter(|t| t.2).collect();
    assert_eq!(primes.len(), 126);
    for t in primes {
        assert_eq!(t.0.count_ones(), 4);
        assert_eq!(t.1, 0x1FF & !t.0);
    }
}

#[test]
fn gen_arity0() {
    assert_eq!(run(|_| true, 0), vec![(0, 0, true)]);
    assert_eq!(run(|_| false, 0), vec![]);
}

#[test]
fn gen_arity1() {
    assert_eq!(run(|v| v == 1, 1), vec![(0, 1, true)]);
    assert_eq!(
        run(|_| true, 1),
        vec![(0, 0, false), (0, 1, false), (1, 0, true)]
    );
}

#[test]
fn gen_reports_each_implicant_once() {
    // Two runs on the same oracle report the same multiset, with no
    // duplicated sub-cube.
    let a = run(|v| v % 5 != 2, 4);
    let b = run(|v| v % 5 != 2, 4);
    assert_eq!(a, b);
    for w in a.windows(2) {
        assert!((w[0].0, w[0].1) != (w[1].0, w[1].1));
    }
}

#[test]
fn gen_round_trip_cubes_are_on() {
    // Every vertex of every reported cube satisfies the oracle.
    let sample = |v: u32| (v ^ (v >> 1)) % 3 == 1;
    let arity = 5;
    let got = run(sample, arity);
    for (m, f, _) in got {
        assert_eq!(f & m, 0);
        assert!(m < (1 << arity) && f < (1 << arity));
        // walk all sub-masks of m
        let mut s: u32 = 0;
        loop {
            assert!(sample(f | s));
            if s == m {
                break;
            }
            s = s.wrapping_sub(m) & m;
        }
    }
}
