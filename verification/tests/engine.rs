use implicants::bits::Bitset;
use implicants::chunk_map::ChunkMap;
use implicants::{build_rank_0, build_rank_n, report_0n};

fn test_sample_mod3(v: u32) -> bool {
    (v % 3) == 0
}

fn test_sample_mux(v: u32) -> bool {
    1 == 1 & (v >> (1 + (v & 1)))
}

#[test]
fn test_build_0() {
    // Prepare
    let mut chunks = ChunkMap::new();

    // Call under test
    build_rank_0(&test_sample_mod3, 3, &mut chunks);

    // Check
    assert_eq!(1, chunks.len());
    let c: &Bitset = chunks.get(0).unwrap();
    assert_eq!(true, c.is(0));
    assert_eq!(false, c.is(1));
    assert_eq!(false, c.is(2));
    assert_eq!(true, c.is(3));
    assert_eq!(false, c.is(4));
    assert_eq!(false, c.is(5));
    assert_eq!(true, c.is(6));
    assert_eq!(false, c.is(7));
}

#[test]
fn test_build_0_full() {
    // Prepare
    let mut chunks = ChunkMap::new();

    // Call under test
    build_rank_0(&|_| true, 3, &mut chunks);

    // Check
    assert_eq!(1, chunks.len());
    let c: &Bitset = chunks.get(0).unwrap();
    assert_eq!(true, c.is(0));
    assert_eq!(true, c.is(1));
    assert_eq!(true, c.is(2));
    assert_eq!(true, c.is(3));
    assert_eq!(true, c.is(4));
    assert_eq!(true, c.is(5));
    assert_eq!(true, c.is(6));
    assert_eq!(true, c.is(7));
}

#[test]
fn test_build_0_empty() {
    // Prepare
    let mut chunks = ChunkMap::new();

    // Call under test
    build_rank_0(&|_| false, 3, &mut chunks);

    // Check
    assert_eq!(0, chunks.len());
}

#[test]
fn test_build_n() {
    // Prepare
    let mut chunks_from = ChunkMap::new();
    build_rank_0(&test_sample_mux, 3, &mut chunks_from);
    assert_eq!(1, chunks_from.len());
    let chunks_from = chunks_from;
    let mut chunks_into = ChunkMap::new();

    // Call under test
    build_rank_n(3, 1, &mut chunks_into, &chunks_from);

    // Check
    assert_eq!(3, chunks_into.len());
    let c: &Bitset = chunks_into.get(0b001).unwrap(); // XXM
    assert_eq!(false, c.is(0b000));
    assert_eq!(false, c.is(0b010));
    assert_eq!(false, c.is(0b100));
    assert_eq!(true, c.is(0b110));
    let c: &Bitset = chunks_into.get(0b010).unwrap(); // XMX
    assert_eq!(false, c.is(0b000));
    assert_eq!(false, c.is(0b001));
    assert_eq!(false, c.is(0b100));
    assert_eq!(true, c.is(0b101));
    let c: &Bitset = chunks_into.get(0b100).unwrap(); // MXX
    assert_eq!(false, c.is(0b000));
    assert_eq!(false, c.is(0b001));
    assert_eq!(true, c.is(0b010));
    assert_eq!(false, c.is(0b011));
}

#[test]
fn test_build_n_empty() {
    // Prepare
    let mut chunks_from = ChunkMap::new();
    let mut only = Bitset::of(3);
    only.set(0);
    chunks_from.insert(0, only);
    assert_eq!(1, chunks_from.len());
    let chunks_from = chunks_from;
    let mut chunks_into = ChunkMap::new();

    // Call under test
    build_rank_n(3, 1, &mut chunks_into, &chunks_from);

    // Check
    assert_eq!(0, chunks_into.len());
}

#[test]
fn test_build_n_empty_imm() {
    // Prepare
    let chunks_from = ChunkMap::new();
    let mut chunks_into = ChunkMap::new();

    // Call under test
    build_rank_n(3, 1, &mut chunks_into, &chunks_from);

    // Check
    assert_eq!(0, chunks_into.len());
}

#[test]
fn test_report() {
    // Prepare
    let mut report_target: Vec<(u32, u32, bool)> = vec![];
    {
        let mut report = |mask_m: u32, mask_nonm: u32, prime: bool| {
            report_target.push((mask_m, mask_nonm, prime));
        };
        let mut chunks_from = ChunkMap::new();
        let mut chunk = Bitset::of(3);
        chunk.set(0b000);
        chunk.set(0b110);
        chunk.set(0b111);
        chunks_from.insert(0, chunk);
        assert_eq!(1, chunks_from.len());

        // Call under test
        report_0n(&mut report, &chunks_from, 3);
    }

    // Check
    assert_eq!(3, report_target.len());
    println!("{:?}", report_target);
    let mut seen = vec![false; 3];
    for entry in report_target {
        match entry {
            (0, 0b000, true) => {
                seen[0] = true;
            }
            (0, 0b110, false) => {
                seen[1] = true;
            }
            (0, 0b111, false) => {
                seen[2] = true;
            }
            _ => {
                panic!("unexpected entry: {:?}", entry);
            }
        }
    }
    assert_eq!(vec![true, true, true], seen);
}

#[test]
fn test_bitset_roundtrip() {
    let mut b = Bitset::of(4);
    assert!(!b.is_any());
    for v in 0..16 {
        assert!(!b.is(v));
    }
    b.set(5);
    b.set(0);
    assert!(b.is_any());
    for v in 0..16 {
        assert_eq!(b.is(v), v == 5 || v == 0);
    }
}
