use host::recycle::Pool;

#[test]
fn a_parked_view_is_claimed_once_and_by_its_own_executable() {
    let mut pool: Pool<&str> = Pool::new();
    assert_eq!(pool.claim("programs/context-menu/src/index.tsx"), None);
    assert!(!pool.occupied("programs/context-menu/src/index.tsx"));
    assert_eq!(pool.park("programs/context-menu/src/index.tsx", "pane-1"), None);
    assert!(pool.occupied("programs/context-menu/src/index.tsx"));
    assert_eq!(pool.claim("programs/sidebar/src/index.tsx"), None, "another program's slot is empty");
    assert_eq!(pool.claim("programs/context-menu/src/index.tsx"), Some("pane-1"));
    assert_eq!(pool.claim("programs/context-menu/src/index.tsx"), None, "claiming empties the slot");
}

#[test]
fn one_slot_per_executable_and_the_displaced_view_returns_to_die() {
    let mut pool: Pool<&str> = Pool::new();
    assert_eq!(pool.park("menu", "older"), None);
    assert_eq!(pool.park("menu", "fresher"), Some("older"), "the freshest parks; the caller drops the rest");
    assert_eq!(pool.claim("menu"), Some("fresher"));
    pool.park("menu", "pane");
    pool.clear();
    assert_eq!(pool.claim("menu"), None, "shutdown sweeps the pool");
}

#[test]
fn slots_of_different_executables_never_touch() {
    let mut pool: Pool<u32> = Pool::new();
    assert_eq!(pool.park("a", 1), None);
    assert_eq!(pool.park("b", 2), None);
    assert_eq!(pool.park("a", 3), Some(1));
    assert!(pool.occupied("b"));
    assert_eq!(pool.claim("b"), Some(2));
    assert!(pool.occupied("a"));
    assert_eq!(pool.claim("a"), Some(3));
    assert!(!pool.occupied("a") && !pool.occupied("b"));
}
