use dataplane::socket::Index;
use dataplane::Manager;
use dataplane::Preference;
use dataplane::SocketId;

#[test]
fn manager_count_and_lookup() {
    let manager = Manager::init(vec![2, 3, 5], vec![2, 2, 3, 3, 5, 5]);
    assert_eq!(manager.count(), 3);
    assert_eq!(manager.id_for_index(Index(0)), Some(SocketId(2)));
    assert_eq!(manager.id_for_index(Index(1)), Some(SocketId(3)));
    assert_eq!(manager.id_for_index(Index(2)), Some(SocketId(5)));
    assert_eq!(manager.id_for_index(Index(3)), None);
}

#[test]
fn manager_lcore_lookup() {
    let manager = Manager::init(vec![0, 1], vec![0, 0, 1, 1]);
    assert_eq!(manager.id_for_lcore(0), Some(SocketId(0)));
    assert_eq!(manager.id_for_lcore(3), Some(SocketId(1)));
    // An lcore beyond the lcore count is not valid.
    assert_eq!(manager.id_for_lcore(4), None);
}

#[test]
fn manager_iter_in_index_order() {
    let manager = Manager::init(vec![2, 3, 5], vec![]);
    let ids = manager.iter();
    assert_eq!(ids, vec![SocketId(2), SocketId(3), SocketId(5)]);
}

#[test]
fn preference_resolution() {
    let manager = Manager::init(vec![0, 1], vec![0, 1, 1]);
    assert_eq!(
        manager.id_for_preference(Preference::CurrentThread, 2),
        Some(SocketId(1))
    );
    assert_eq!(
        manager.id_for_preference(Preference::Id(SocketId(7)), 0),
        Some(SocketId(7))
    );
    assert_eq!(
        manager.id_for_preference(Preference::LCore(0), 2),
        Some(SocketId(0))
    );
    assert_eq!(manager.id_for_preference(Preference::LCore(9), 0), None);
}

#[test]
fn socket_id_and_index_conversions() {
    assert_eq!(SocketId(4).as_c_uint(), 4);
    assert_eq!(u32::from(Index(6)), 6);
    assert_eq!(Index::from(6u32), Index(6));
}
