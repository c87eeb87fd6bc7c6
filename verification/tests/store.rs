use voidproto::store::StoreModel;

#[test]
fn exists_register_authenticate() {
    let mut store = StoreModel::new();
    assert!(!store.player_exists(b"alice"));
    assert!(store.register(b"alice", b"secret"));
    assert!(store.player_exists(b"alice"));
    assert!(store.authenticate(b"alice", b"secret"));
    assert!(!store.authenticate(b"alice", b"wrong"));
    assert!(!store.authenticate(b"bob", b"secret"));
}

#[test]
fn duplicate_registration_fails_whoever_is_second() {
    // the store is queried under an exclusive guard, so two overlapping
    // registrations run one after the other: at most one succeeds
    let mut store = StoreModel::new();
    let first = store.register(b"alice", b"one");
    let second = store.register(b"alice", b"two");
    assert!(first);
    assert!(!second);
    assert!(!(first && second));
    // the first secret is the one that stays
    assert!(store.authenticate(b"alice", b"one"));
    assert!(!store.authenticate(b"alice", b"two"));

    let mut store = StoreModel::new();
    let first = store.register(b"alice", b"two");
    let second = store.register(b"alice", b"one");
    assert!(!(first && second));
}
