fn sample_maj_of(arity: u32) -> impl Fn(u32) -> bool {
    assert!(arity <= 64);
    move |v: u32| v.count_ones() > (arity / 2)
}

#[test]
fn collect2_main() {
    let my_fn = sample_maj_of(9);
    let mut buffer: Vec<(u32, u32, bool)> = Vec::new();

    {
        // Need to return borrow of 'buffer' before we iterate.
        let mut store_it = |mask_gap: u32, value: u32, is_prime: bool| {
            buffer.push((mask_gap, value, is_prime));
        };
        println!("Hello world!");
        implicants::generate(&my_fn, &mut store_it, 9);
    }

    for (mask_gap, value, is_prime) in buffer {
        println!(
            "{:032b}/{:032b} is a{} implicant.",
            mask_gap,
            value,
            if is_prime { " prime" } else { "n" }
        );
    }
    println!("That's it.");
}
