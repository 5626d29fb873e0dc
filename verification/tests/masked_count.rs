use implicants::masked_count::up;

fn collect_up(mask: u32) -> Vec<u32> {
    let mut it = up(mask);
    let mut out: Vec<u32> = Vec::new();
    while let Some(s) = it.next() {
        out.push(s);
    }
    out
}

#[test]
fn test_count_simple() {
    let mut i = up(0xCAFEBABE);
    assert_eq!(0, i.submask);
    assert_eq!(Some(0), i.next());
    assert_eq!(0b10, i.submask);
    assert_eq!(Some(0b10), i.next());
    assert_eq!(0b100, i.submask);
    assert_eq!(Some(0b100), i.next());
    assert_eq!(0b110, i.submask);
}

#[test]
fn test_count_corner() {
    assert_eq!(vec![0], collect_up(0));
    assert_eq!(vec![0, 1], collect_up(1));
    assert_eq!(vec![0, 0x80], collect_up(0x80));
    assert_eq!(vec![0, 1, 8, 9], collect_up(9));
    assert_eq!(
        vec![0x0000_0000, 0x0000_0001, 0x8000_0000, 0x8000_0001],
        collect_up(0x8000_0001)
    );
    assert_eq!(
        vec![0x00, 0x10, 0x20, 0x30, 0x40, 0x50, 0x60, 0x70],
        collect_up(0x70)
    );
}

#[test]
fn test_count_all_submasks_ascending() {
    let mask = 0b1011;
    let got = collect_up(mask);
    assert_eq!(got.len(), 1 << mask.count_ones());
    for w in got.windows(2) {
        assert!(w[0] < w[1]);
    }
    for s in &got {
        assert_eq!(s & mask, *s);
    }
    assert_eq!(got.first(), Some(&0));
    assert_eq!(got.last(), Some(&mask));
}

#[test]
fn test_count_exhausted_stays_done() {
    let mut it = up(0b1);
    assert_eq!(Some(0), it.next());
    assert_eq!(Some(1), it.next());
    assert_eq!(None, it.next());
    assert_eq!(None, it.next());
    assert!(it.done);
}
