use std::sync::{PoisonError, RwLock};

use hyperscale::lock_recover::{read_or_recover, recover_guard, write_or_recover};

#[test]
fn a_poisoned_attempt_still_yields_its_guard() {
    assert_eq!(recover_guard::<u8>(Ok(5)), 5);
    assert_eq!(recover_guard::<u8>(Err(PoisonError::new(7))), 7);
}

#[test]
fn reads_and_writes_through_the_guards() {
    let lock = RwLock::new(5u64);
    assert_eq!(*read_or_recover(lock.read()), 5);
    *write_or_recover(lock.write()) = 9;
    assert_eq!(*read_or_recover(lock.read()), 9);
    {
        let a = read_or_recover(lock.read());
        let b = read_or_recover(lock.read());
        assert_eq!(*a + *b, 18);
    }
}
