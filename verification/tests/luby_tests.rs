use lib::restart::luby_exponent;

#[test]
fn luby_sequence_prefix() {
    let expected = [0u32, 0, 1, 0, 0, 1, 2, 0, 0, 1, 0, 0, 1, 2, 3, 0, 0, 1, 0, 0, 1, 2, 0, 0, 1, 0, 0, 1, 2, 3, 4];
    for (x, e) in expected.iter().enumerate() {
        assert_eq!(luby_exponent(x as u64), *e, "term {}", x);
    }
}

#[test]
fn luby_block_ends_with_its_largest_term() {
    for k in 1u32..40 {
        let x = (1u64 << k) - 2;
        assert_eq!(luby_exponent(x), k - 1);
    }
}

#[test]
fn luby_block_repeats_its_first_half() {
    for k in 2u32..12 {
        let half = (1u64 << (k - 1)) - 1;
        for x in 0..half {
            assert_eq!(luby_exponent(x + half), luby_exponent(x));
        }
    }
}

#[test]
fn luby_terms_around_two_to_the_sixty_three() {
    assert_eq!(luby_exponent(0x7fff_ffff_ffff_fffe), 62);
    assert_eq!(luby_exponent(0x7fff_ffff_ffff_ffff), 0);
}

#[test]
fn luby_terms_near_the_top_of_the_range() {
    assert_eq!(luby_exponent(u64::MAX - 1), 63);
    assert_eq!(luby_exponent(u64::MAX - 2), 62);
    assert_eq!(luby_exponent((1u64 << 63) - 2), 62);
}
