use luna::connection_pool::IdleConnections;

#[test]
fn empty_pool_has_nothing_to_take() {
    let mut idle: IdleConnections<u32> = IdleConnections::with_capacity(4);
    assert_eq!(idle.take(), None);
}

#[test]
fn take_undoes_put_back() {
    let mut idle: IdleConnections<&str> = IdleConnections::with_capacity(2);
    idle.put_back("first");
    idle.put_back("second");
    assert_eq!(idle.take(), Some("second"));
    assert_eq!(idle.take(), Some("first"));
    assert_eq!(idle.take(), None);
}
