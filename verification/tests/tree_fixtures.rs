use hyperscale::tree_fixtures::{k, v};

#[test]
fn keys_lead_with_their_byte() {
    let key = k(0xAB);
    assert_eq!(key[0], 0xAB);
    assert!(key[1..].iter().all(|b| *b == 0));
    assert_ne!(k(1), k(2));
}

#[test]
fn values_are_filled() {
    assert_eq!(v(7), [7u8; 32]);
    assert_eq!(v(0), [0u8; 32]);
}
