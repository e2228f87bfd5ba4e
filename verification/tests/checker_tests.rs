use hashsearch::checker::has_trailing_zeros;

#[test]
fn no_trailing_zero_nibbles() {
    let d = [0xabu8; 32];
    assert!(has_trailing_zeros(&d, 0));
    assert!(!has_trailing_zeros(&d, 1));
}

#[test]
fn one_trailing_zero_nibble() {
    let mut d = [0xabu8; 32];
    d[31] = 0x10;
    assert!(!has_trailing_zeros(&d, 0));
    assert!(has_trailing_zeros(&d, 1));
    assert!(!has_trailing_zeros(&d, 2));
}

#[test]
fn run_of_five_is_exactly_five() {
    // 0x50 contributes one zero nibble, the two zero bytes two each
    let mut d = [0xffu8; 32];
    d[29] = 0x50;
    d[30] = 0x00;
    d[31] = 0x00;
    assert!(!has_trailing_zeros(&d, 4));
    assert!(has_trailing_zeros(&d, 5));
    assert!(!has_trailing_zeros(&d, 6));
}

#[test]
fn run_of_sixteen_is_exactly_sixteen() {
    let mut d = [0x01u8; 32];
    for i in 24..32 {
        d[i] = 0x00;
    }
    assert!(has_trailing_zeros(&d, 16));
    assert!(!has_trailing_zeros(&d, 15));
    assert!(!has_trailing_zeros(&d, 17));
}

#[test]
fn run_of_seventeen_does_not_match_sixteen() {
    let mut d = [0x01u8; 32];
    d[23] = 0x30;
    for i in 24..32 {
        d[i] = 0x00;
    }
    assert!(!has_trailing_zeros(&d, 16));
    assert!(has_trailing_zeros(&d, 17));
}

#[test]
fn all_zero_digest_has_full_run() {
    let d = [0x00u8; 32];
    assert!(has_trailing_zeros(&d, 64));
    assert!(!has_trailing_zeros(&d, 16));
}

#[test]
fn empty_input_has_empty_run() {
    let d: [u8; 0] = [];
    assert!(has_trailing_zeros(&d, 0));
    assert!(!has_trailing_zeros(&d, 1));
}
