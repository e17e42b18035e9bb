use connect_server::game::Cell;
use connect_server::protocol::{is_ping, ClientEvent, ClientEventCode, ClientEventData, Event, Outbound, ServerEventCode};
use connect_server::rand_ids::get_rand_session_id;
use connect_server::registry::{ConnectError, Registry};

fn codes(out: &[Outbound]) -> Vec<(String, ServerEventCode)> {
    out.iter().map(|o| (o.recipient.clone(), o.event.event_code)).collect()
}

fn connected(ids: &[&str]) -> Registry {
    let mut r = Registry::new();
    for id in ids {
        assert_eq!(r.connect(id), Ok(id.to_string()));
    }
    r
}

fn session_of_event(o: &Outbound) -> String {
    o.event.data.as_ref().unwrap().session_id.clone().unwrap()
}

fn event(code: ClientEventCode, session_id: Option<&str>, column: Option<usize>) -> ClientEvent {
    Event {
        event_code: code,
        message: None,
        data: Some(ClientEventData { target_ids: None, session_id: session_id.map(|s| s.to_string()), column }),
    }
}

#[test]
fn duplicate_identity_is_refused() {
    let mut r = connected(&["A"]);
    assert_eq!(r.connect("A"), Err(ConnectError::DuplicateIdentity));
    assert_eq!(r.clients.len(), 1);
}

#[test]
fn identity_is_percent_decoded() {
    let mut r = Registry::new();
    assert_eq!(r.connect("Ann%20Lee"), Ok("Ann Lee".to_string()));
    assert_eq!(r.clients[0].id, "Ann Lee");
    assert_eq!(r.connect("Ann Lee"), Err(ConnectError::DuplicateIdentity));
}

#[test]
fn undecodable_identity_is_refused() {
    let mut r = Registry::new();
    assert_eq!(r.connect("bad%FF"), Err(ConnectError::InvalidIdentity));
    assert!(r.clients.is_empty());
}

#[test]
fn random_session_codes_are_five_capitals() {
    for _ in 0..20 {
        let code = get_rand_session_id();
        assert_eq!(code.chars().count(), 5);
        assert!(code.chars().all(|c| c.is_ascii_uppercase()));
    }
}

#[test]
fn ping_frames_are_recognised() {
    assert!(is_ping("ping"));
    assert!(is_ping("ping\n"));
    assert!(!is_ping("pong"));
    assert!(!is_ping("{\"event_code\":4}"));
}

#[test]
fn create_join_start_and_play_scenario() {
    let mut r = connected(&["A", "B"]);
    let out = r.create_session("A", None);
    assert_eq!(codes(&out), vec![("A".to_string(), ServerEventCode::ClientJoined)]);
    let s = session_of_event(&out[0]);
    assert_eq!(out[0].event.data.as_ref().unwrap().client_id.as_deref(), Some("A"));
    assert_eq!(r.get_client_session_id("A"), Some(s.clone()));

    let out = r.join_session("B", s.clone());
    assert_eq!(
        codes(&out),
        vec![("A".to_string(), ServerEventCode::ClientJoined), ("B".to_string(), ServerEventCode::ClientJoined)]
    );
    for o in &out {
        let d = o.event.data.as_ref().unwrap();
        assert_eq!(d.session_id.as_deref(), Some(s.as_str()));
        assert_eq!(d.client_id.as_deref(), Some("B"));
        assert_eq!(d.session_client_ids, Some(vec!["A".to_string(), "B".to_string()]));
    }

    let out = r.start_game("A");
    assert_eq!(out.len(), 4);
    assert_eq!(out[0].event.event_code, ServerEventCode::GameStarted);
    assert_eq!(out[1].event.event_code, ServerEventCode::GameStarted);
    assert_eq!(out[2].event.event_code, ServerEventCode::TurnStart);
    assert_eq!(out[3].event.event_code, ServerEventCode::TurnStart);
    let first = out[2].event.data.as_ref().unwrap().client_id.clone().unwrap();
    assert_eq!(out[3].event.data.as_ref().unwrap().client_id.as_deref(), Some(first.as_str()));
    let order = out[2].event.data.as_ref().unwrap().game_data.as_ref().unwrap().player_order.clone();
    assert_eq!(order.len(), 2);
    assert!(order.contains(&"A".to_string()) && order.contains(&"B".to_string()));
    assert_eq!(order[0], first);
    let other = if first == "A" { "B" } else { "A" };

    let out = r.play_column(&first, 3);
    assert_eq!(out.len(), 2);
    for o in &out {
        assert_eq!(o.event.event_code, ServerEventCode::TurnStart);
        let d = o.event.data.as_ref().unwrap();
        assert_eq!(d.client_id.as_deref(), Some(other));
        let gd = d.game_data.as_ref().unwrap();
        assert_eq!(gd.turn_index, 1);
        let expected = if o.recipient == first { Cell::Owned(0) } else { Cell::Unknown };
        assert_eq!(gd.play_indexes[3][0], expected);
    }
}

#[test]
fn winning_move_ends_game_with_raw_board() {
    let mut r = connected(&["A", "B"]);
    let s = session_of_event(&r.create_session("A", Some("ROOM".to_string()))[0]);
    r.join_session("B", s.clone());
    let out = r.start_game("B");
    let first = out[2].event.data.as_ref().unwrap().client_id.clone().unwrap();
    let second = if first == "A" { "B".to_string() } else { "A".to_string() };
    for c in 0..3 {
        assert_eq!(r.play_column(&first, c)[0].event.event_code, ServerEventCode::TurnStart);
        assert_eq!(r.play_column(&second, c)[0].event.event_code, ServerEventCode::TurnStart);
    }
    let out = r.play_column(&first, 3);
    assert_eq!(out.len(), 2);
    for o in &out {
        assert_eq!(o.event.event_code, ServerEventCode::GameEnded);
        let d = o.event.data.as_ref().unwrap();
        assert_eq!(d.client_id.as_deref(), Some(first.as_str()));
        let board = &d.game_data.as_ref().unwrap().play_indexes;
        assert_eq!(board[0][1], Cell::Owned(1));
        assert_eq!(board[3][0], Cell::Owned(0));
    }
}

#[test]
fn joining_a_missing_session_creates_it() {
    let mut r = connected(&["C"]);
    let out = r.join_session("C", "ZZZZZ".to_string());
    assert_eq!(codes(&out), vec![("C".to_string(), ServerEventCode::ClientJoined)]);
    assert_eq!(session_of_event(&out[0]), "ZZZZZ");
    assert_eq!(r.sessions.len(), 1);
    assert_eq!(r.sessions[0].id, "ZZZZZ");
    assert_eq!(r.sessions[0].owner, "C");
    assert_eq!(r.get_client_session_id("C"), Some("ZZZZZ".to_string()));
}

#[test]
fn sole_member_disconnect_removes_session_and_game() {
    let mut r = connected(&["A", "B"]);
    r.join_session("A", "ROOM".to_string());
    r.join_session("B", "ROOM".to_string());
    r.start_game("A");
    assert_eq!(r.games.len(), 1);
    r.disconnect("B");
    assert_eq!(r.sessions.len(), 1);
    assert_eq!(r.sessions[0].get_clients_with_active_status(false), vec!["B".to_string()]);
    r.disconnect("A");
    assert!(r.sessions.is_empty());
    assert!(r.games.is_empty());
    assert_eq!(r.connect("A"), Ok("A".to_string()));
    let out = r.join_session("A", "ROOM".to_string());
    assert_eq!(codes(&out), vec![("A".to_string(), ServerEventCode::ClientJoined)]);
    assert_eq!(r.sessions[0].owner, "A");
    assert_eq!(r.sessions[0].get_client_ids(), vec!["A".to_string()]);
    assert!(r.games.is_empty());
}

#[test]
fn reconnect_restores_session_membership() {
    let mut r = connected(&["A", "B"]);
    r.join_session("A", "ROOM".to_string());
    r.join_session("B", "ROOM".to_string());
    r.disconnect("B");
    assert_eq!(r.get_client_session_id("B"), None);
    assert_eq!(r.connect("B"), Ok("B".to_string()));
    assert_eq!(r.get_client_session_id("B"), Some("ROOM".to_string()));
    assert_eq!(r.sessions[0].get_clients_with_active_status(true), vec!["A".to_string(), "B".to_string()]);
}

#[test]
fn started_game_takes_no_new_member() {
    let mut r = connected(&["A", "B", "C"]);
    r.join_session("A", "ROOM".to_string());
    r.join_session("B", "ROOM".to_string());
    r.start_game("A");
    let out = r.join_session("C", "ROOM".to_string());
    assert_eq!(codes(&out), vec![("C".to_string(), ServerEventCode::LogicError)]);
    assert_eq!(out[0].event.message.as_deref(), Some("This session's game has already started."));
    assert_eq!(r.sessions[0].get_client_ids(), vec!["A".to_string(), "B".to_string()]);
    assert_eq!(r.get_client_session_id("C"), None);
}

#[test]
fn start_needs_two_active_members() {
    let mut r = connected(&["A"]);
    r.create_session("A", None);
    let out = r.start_game("A");
    assert_eq!(codes(&out), vec![("A".to_string(), ServerEventCode::LogicError)]);
    assert_eq!(out[0].event.message.as_deref(), Some("Need at least 2 players to start a game."));
    assert!(r.games.is_empty());
}

#[test]
fn out_of_turn_play_is_refused_without_change() {
    let mut r = connected(&["A", "B"]);
    r.join_session("A", "ROOM".to_string());
    r.join_session("B", "ROOM".to_string());
    let out = r.start_game("A");
    let first = out[2].event.data.as_ref().unwrap().client_id.clone().unwrap();
    let second = if first == "A" { "B" } else { "A" };
    let board_before = r.games[0].state.board.clone();
    let out = r.play_column(second, 0);
    assert_eq!(codes(&out), vec![(second.to_string(), ServerEventCode::LogicError)]);
    assert_eq!(out[0].event.message.as_deref(), Some("It is not your turn to play."));
    assert_eq!(r.games[0].state.board, board_before);
    assert_eq!(r.games[0].state.turn_index, 0);
}

#[test]
fn full_column_play_is_refused() {
    let mut r = connected(&["A", "B"]);
    r.join_session("A", "ROOM".to_string());
    r.join_session("B", "ROOM".to_string());
    let out = r.start_game("A");
    let first = out[2].event.data.as_ref().unwrap().client_id.clone().unwrap();
    let out = r.play_column(&first, 9);
    assert_eq!(codes(&out), vec![(first.clone(), ServerEventCode::LogicError)]);
    assert_eq!(out[0].event.message.as_deref(), Some("This column has reached its max."));
    assert_eq!(r.games[0].state.turn_index, 0);
}

#[test]
fn leaving_owner_hands_session_on() {
    let mut r = connected(&["A", "B"]);
    r.join_session("A", "ROOM".to_string());
    r.join_session("B", "ROOM".to_string());
    assert_eq!(r.sessions[0].owner, "A");
    let out = r.leave_session("A");
    assert_eq!(
        codes(&out),
        vec![("A".to_string(), ServerEventCode::ClientLeft), ("B".to_string(), ServerEventCode::ClientLeft)]
    );
    assert_eq!(out[1].event.data.as_ref().unwrap().client_id.as_deref(), Some("A"));
    assert_eq!(r.sessions[0].owner, "B");
    assert_eq!(r.get_client_session_id("A"), None);
    let out = r.leave_session("B");
    assert_eq!(codes(&out), vec![("B".to_string(), ServerEventCode::ClientLeft)]);
    assert!(r.sessions.is_empty());
}

#[test]
fn create_leaves_previous_session_first() {
    let mut r = connected(&["A", "B"]);
    r.join_session("A", "ROOM".to_string());
    r.join_session("B", "ROOM".to_string());
    let out = r.create_session("A", Some("OTHER".to_string()));
    assert_eq!(out.len(), 3);
    assert_eq!(out[2].event.event_code, ServerEventCode::ClientJoined);
    assert_eq!(r.get_client_session_id("A"), Some("OTHER".to_string()));
    let room = r.sessions.iter().find(|s| s.id == "ROOM").unwrap();
    assert_eq!(room.get_client_ids(), vec!["B".to_string()]);
    let taken = r.create_session("A", Some("ROOM".to_string()));
    assert_eq!(taken.last().unwrap().event.event_code, ServerEventCode::LogicError);
    assert_eq!(taken.last().unwrap().event.message.as_deref(), Some("That session code is already in use."));
    assert_eq!(r.get_client_session_id("A"), None);
}

#[test]
fn status_request_reports_session_and_view() {
    let mut r = connected(&["A", "B"]);
    assert!(r.session_status("A").is_empty());
    r.join_session("A", "ROOM".to_string());
    r.join_session("B", "ROOM".to_string());
    let out = r.session_status("B");
    assert_eq!(codes(&out), vec![("B".to_string(), ServerEventCode::SessionResponse)]);
    let d = out[0].event.data.as_ref().unwrap();
    assert_eq!(d.session_id.as_deref(), Some("ROOM"));
    assert_eq!(d.session_client_ids, Some(vec!["A".to_string(), "B".to_string()]));
    assert!(d.game_data.is_none());
    r.start_game("A");
    let out = r.session_status("B");
    assert!(out[0].event.data.as_ref().unwrap().game_data.is_some());
}

#[test]
fn events_are_dispatched_by_code() {
    let mut r = connected(&["A", "B"]);
    let out = r.handle_event("A", event(ClientEventCode::JoinSession, Some("ROOM"), None));
    assert_eq!(codes(&out), vec![("A".to_string(), ServerEventCode::ClientJoined)]);
    assert!(r.handle_event("B", event(ClientEventCode::JoinSession, None, None)).is_empty());
    r.handle_event("B", event(ClientEventCode::JoinSession, Some("ROOM"), None));
    let out = r.handle_event("A", event(ClientEventCode::StartGame, None, None));
    assert_eq!(out.len(), 4);
    let first = out[2].event.data.as_ref().unwrap().client_id.clone().unwrap();
    assert!(r.handle_event(&first, event(ClientEventCode::Play, None, None)).is_empty());
    let out = r.handle_event(&first, event(ClientEventCode::Play, None, Some(0)));
    assert_eq!(out[0].event.event_code, ServerEventCode::TurnStart);
    let out = r.handle_event("A", event(ClientEventCode::SessionRequest, None, None));
    assert_eq!(out[0].event.event_code, ServerEventCode::SessionResponse);
    let out = r.handle_event("A", event(ClientEventCode::LeaveSession, None, None));
    assert_eq!(out[0].event.event_code, ServerEventCode::ClientLeft);
    let out = r.handle_event("A", event(ClientEventCode::CreateSession, None, None));
    assert_eq!(out[0].event.event_code, ServerEventCode::ClientJoined);
    assert_eq!(r.handle_event("Z", event(ClientEventCode::CreateSession, None, None)).len(), 0);
}

#[test]
fn at_most_one_session_per_client_after_moves() {
    let mut r = connected(&["A", "B", "C"]);
    r.join_session("A", "ONE".to_string());
    r.join_session("B", "ONE".to_string());
    r.join_session("C", "TWO".to_string());
    r.join_session("B", "TWO".to_string());
    r.create_session("C", None);
    r.join_session("A", "TWO".to_string());
    for id in ["A", "B", "C"] {
        let n = r.sessions.iter().filter(|s| s.contains_client(id)).count();
        assert!(n <= 1, "{} is in {} sessions", id, n);
    }
}

#[test]
fn cleanup_removes_session_and_its_game_only() {
    let mut r = connected(&["A", "B", "C"]);
    r.join_session("A", "ONE".to_string());
    r.join_session("B", "ONE".to_string());
    r.join_session("C", "TWO".to_string());
    r.start_game("A");
    r.cleanup_session("ONE");
    assert_eq!(r.sessions.len(), 1);
    assert_eq!(r.sessions[0].id, "TWO");
    assert!(r.games.is_empty());
    r.cleanup_session("NONE");
    assert_eq!(r.sessions.len(), 1);
}

#[test]
fn claimable_checks_without_registering() {
    let mut r = connected(&["A"]);
    assert_eq!(r.claimable("A"), Err(ConnectError::DuplicateIdentity));
    assert_eq!(r.claimable("x%FF"), Err(ConnectError::InvalidIdentity));
    assert_eq!(r.claimable("B%21"), Ok("B!".to_string()));
    assert_eq!(r.clients.len(), 1);
    assert_eq!(r.connect("B%21"), Ok("B!".to_string()));
}

#[test]
fn joining_keeps_the_owner() {
    let mut r = connected(&["A", "B", "C"]);
    r.join_session("A", "ROOM".to_string());
    r.join_session("B", "ROOM".to_string());
    r.leave_session("B");
    assert_eq!(r.sessions[0].owner, "A");
    r.join_session("C", "ROOM".to_string());
    assert_eq!(r.sessions[0].owner, "A");
    assert_eq!(r.sessions[0].get_client_ids(), vec!["A".to_string(), "C".to_string()]);
}
