use iguagile_engine::client::{bytes_equal, Client, ClientSession};
use iguagile_engine::error::RelayError;
use iguagile_engine::room::ClientManager;

fn session(id: u16, at: u64) -> ClientSession {
    ClientSession::new(id, vec![id as u8, 0xaa], at)
}

#[test]
fn registry_add_get_remove() {
    let mut registry = ClientManager::new();
    assert_eq!(registry.count(), 0);
    assert!(registry.add(7, session(7, 1)).is_ok());
    assert!(registry.add(3, session(3, 2)).is_ok());
    assert_eq!(registry.count(), 2);
    assert_eq!(registry.len(), 2);
    assert!(registry.contains(7));
    assert!(!registry.contains(8));
    assert_eq!(registry.get(7).unwrap().get_id(), 7);
    assert_eq!(registry.get(7).unwrap().connection_id(), &vec![7u8, 0xaa]);
    assert_eq!(registry.get(8).err(), Some(RelayError::UnknownClient));
    assert!(registry.remove(7).is_ok());
    assert_eq!(registry.remove(7), Err(RelayError::UnknownClient));
    assert_eq!(registry.count(), 1);
}

#[test]
fn registry_refuses_duplicate() {
    let mut registry = ClientManager::new();
    assert_eq!(registry.add(5, session(5, 1)), Ok(()));
    assert_eq!(registry.add(5, session(5, 9)), Err(RelayError::DuplicateClient));
    assert_eq!(registry.count(), 1);
    assert_eq!(registry.get(5).unwrap().last_activity(), 1);
}

#[test]
fn registry_first_is_lowest_id() {
    let mut registry = ClientManager::new();
    assert_eq!(registry.first().err(), Some(RelayError::Empty));
    assert_eq!(registry.first_id(), None);
    for id in [9u16, 3, 7] {
        registry.add(id, session(id, 0)).unwrap();
    }
    assert_eq!(registry.first().unwrap().get_id(), 3);
    assert_eq!(registry.first_id(), Some(3));
    assert_eq!(registry.ids(), vec![3, 7, 9]);
    registry.remove(3).unwrap();
    assert_eq!(registry.first().unwrap().get_id(), 7);
    registry.clear();
    assert_eq!(registry.count(), 0);
    assert_eq!(registry.first().err(), Some(RelayError::Empty));
}

#[test]
fn registry_touch_and_idle() {
    let mut registry = ClientManager::new();
    registry.add(1, session(1, 100)).unwrap();
    registry.add(2, session(2, 200)).unwrap();
    registry.add(3, session(3, 300)).unwrap();
    assert_eq!(registry.idle_ids(300, 100), vec![1]);
    assert_eq!(registry.idle_ids(300, 99), vec![1, 2]);
    assert_eq!(registry.idle_ids(50, 0), Vec::<u16>::new());
    assert_eq!(registry.touch(1, 290), Ok(()));
    assert_eq!(registry.get(1).unwrap().last_activity(), 290);
    assert_eq!(registry.touch(1, 10), Ok(()));
    assert_eq!(registry.get(1).unwrap().last_activity(), 290);
    assert_eq!(registry.touch(4, 10), Err(RelayError::UnknownClient));
    assert_eq!(registry.idle_ids(300, 99), vec![2]);
}

#[test]
fn session_idle_is_strictly_longer_than_timeout() {
    let mut s = ClientSession::new(4, vec![1, 2, 3], 1000);
    assert!(!s.is_idle(6000, 5000));
    assert!(s.is_idle(6001, 5000));
    assert!(!s.is_idle(10, 0));
    s.touch(2000);
    assert_eq!(s.last_activity(), 2000);
    assert!(!s.is_idle(6001, 5000));
    let copy = s.duplicate();
    assert_eq!(copy.get_id(), 4);
    assert_eq!(copy.connection_id(), &vec![1u8, 2, 3]);
    assert_eq!(copy.last_activity(), 2000);
}

#[test]
fn bytes_equal_compares_content() {
    assert!(bytes_equal(&[], &[]));
    assert!(bytes_equal(&[1, 2], &[1, 2]));
    assert!(!bytes_equal(&[1, 2], &[1, 3]));
    assert!(!bytes_equal(&[1, 2], &[1, 2, 3]));
}
