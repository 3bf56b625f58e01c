use kodachi::connections::Connections;

#[test]
fn connections_get_ids_in_turn() {
    let mut connections: Connections<&str> = Connections::new();
    assert_eq!(connections.next_id(), 0);
    let first = connections.create("first");
    let second = connections.create("second");
    assert_eq!(first, 0);
    assert_eq!(second, 1);
    assert_eq!(connections.get(first), Some(&"first"));
    assert_eq!(connections.get(second), Some(&"second"));
    assert_eq!(connections.get(2), None);
}

#[test]
fn dropped_connection_id_is_not_reused() {
    let mut connections: Connections<u32> = Connections::new();
    let first = connections.create(10);
    connections.drop(first);
    assert_eq!(connections.get(first), None);
    let second = connections.create(20);
    assert_ne!(first, second);
    assert_eq!(second, 1);
    assert_eq!(connections.get(second), Some(&20));
}

#[test]
fn dropping_unknown_connection_changes_nothing() {
    let mut connections: Connections<u32> = Connections::new();
    let id = connections.create(7);
    connections.drop(42);
    assert_eq!(connections.get(id), Some(&7));
    assert_eq!(connections.next_id(), 1);
}
