//! Alignment guessing over addresses.

use toctoc::bytes::guess_align_of;

#[test]
fn align_guessing() {
    // The guess divides the address and is exact.
    let cases: Vec<(usize, usize)> = vec![
        (1, 1),
        (2, 2),
        (3, 1),
        (4, 4),
        (6, 2),
        (8, 8),
        (12, 4),
        (16, 16),
        (24, 8),
        (32, 32),
        (48, 16),
        (64, 32),
        (96, 32),
        (0, 32),
        (129, 1),
        (1024, 32),
    ];
    for (addr, expected) in cases {
        let g = guess_align_of(addr);
        assert_eq!(g, expected);
        assert_eq!(addr % g, 0);
    }
    // Any address that is a multiple of a type's alignment guesses at
    // least that alignment, so the claim is always safe.
    for k in 0..64usize {
        let addr = k * 8;
        assert!(guess_align_of(addr) >= 8);
        assert!(guess_align_of(addr) % 8 == 0);
        assert!(guess_align_of(addr) <= 32);
    }
}
