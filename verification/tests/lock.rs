//! The lock of a run.

use detc::lock::{path, Slot, MODE};

#[test]
fn test_the_path_is_beside_the_journal() {
    assert_eq!(path("/tmp/x"), "/tmp/x/var/lib/detc/run.lock");
}

#[test]
fn test_the_lock_is_published_while_it_is_held_and_not_after() {
    let mut slot = Slot::new();
    assert_eq!(slot.held(), None);

    slot.take(&path("/sysroot")).expect("the lock is taken");
    let published = slot.held().expect("the lock is published while it is held");
    assert!(published.ends_with("var/lib/detc/run.lock"));
    assert!(published.starts_with('/'));

    slot.release();
    assert_eq!(slot.held(), None);
}

#[test]
fn test_a_second_lock_of_one_process_is_refused_rather_than_waited_for() {
    let mut slot = Slot::new();
    slot.take(&path("/sysroot")).expect("the lock is taken");

    assert!(slot.free().is_err());
    assert_eq!(
        slot.take(&path("/other")),
        Err("This process is already running against /sysroot/var/lib/detc/run.lock".to_string())
    );

    // What is held stays what it is
    assert_eq!(slot.held(), Some("/sysroot/var/lib/detc/run.lock"));
}

#[test]
fn test_the_file_is_readable_only_by_whoever_took_it() {
    assert_eq!(MODE, 0o600);
}
