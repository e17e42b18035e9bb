use connect_server::session::{set_new_session_owner, Session};

#[test]
fn new_session_has_owner_as_active_member() {
    let s = Session::new("ROOM1".to_string(), "A".to_string());
    assert_eq!(s.get_num_clients(), 1);
    assert!(s.contains_client("A"));
    assert_eq!(s.owner, "A");
    assert_eq!(s.get_clients_with_active_status(true), vec!["A".to_string()]);
}

#[test]
fn insert_remove_and_status() {
    let mut s = Session::new("ROOM1".to_string(), "A".to_string());
    s.insert_client("B", true);
    s.insert_client("C", false);
    assert_eq!(s.get_num_clients(), 3);
    assert_eq!(s.get_client_ids(), vec!["A".to_string(), "B".to_string(), "C".to_string()]);
    assert_eq!(s.get_clients_with_active_status(false), vec!["C".to_string()]);
    s.insert_client("B", false);
    assert_eq!(s.get_num_clients(), 3);
    assert_eq!(s.get_clients_with_active_status(true), vec!["A".to_string()]);
    s.set_client_active_status("C", true);
    assert_eq!(s.get_clients_with_active_status(true), vec!["A".to_string(), "C".to_string()]);
    s.set_client_active_status("Z", true);
    assert!(!s.contains_client("Z"));
    s.remove_client("A");
    assert!(!s.contains_client("A"));
    assert_eq!(s.get_num_clients(), 2);
    s.remove_client("A");
    assert_eq!(s.get_num_clients(), 2);
}

#[test]
fn owner_can_be_reassigned() {
    let mut s = Session::new("ROOM1".to_string(), "A".to_string());
    s.insert_client("B", true);
    set_new_session_owner(&mut s, &"B".to_string());
    assert_eq!(s.owner, "B");
    assert_eq!(s.id, "ROOM1");
    assert_eq!(s.get_num_clients(), 2);
}
