//! Inbound and outbound protocol values, in their decoded form.
use crate::game::{cells_of, ids_of, redact_board, GameBoard, GameState};
use vstd::prelude::*;

verus! {

/// What a player learns of a game: whose turn it is, the turn order, and a board.
#[derive(Clone, Debug)]
pub struct GameData {
    pub turn_index: usize,
    pub player_order: Vec<String>,
    pub play_indexes: GameBoard,
}

/// A protocol frame: its code, a diagnostic for logic errors, and a payload.
#[derive(Clone, Debug)]
pub struct Event<Code, PayloadType> {
    pub event_code: Code,
    pub message: Option<String>,
    pub data: Option<PayloadType>,
}

/// A frame sent by the server.
pub type ServerEvent = Event<ServerEventCode, ServerEventData>;

/// A frame sent by a client.
pub type ClientEvent = Event<ClientEventCode, ClientEventData>;

/// Payload of a server frame.
#[derive(Clone, Debug)]
pub struct ServerEventData {
    pub session_id: Option<String>,
    pub client_id: Option<String>,
    pub session_client_ids: Option<Vec<String>>,
    pub game_data: Option<GameData>,
}

/// Payload of a client frame.
#[derive(Clone, Debug)]
pub struct ClientEventData {
    pub target_ids: Option<Vec<String>>,
    pub session_id: Option<String>,
    pub column: Option<usize>,
}

/// Kinds of server frames.
#[derive(Clone, Copy, Debug, PartialEq, Eq, Structural)]
pub enum ServerEventCode {
    ClientJoined,
    ClientLeft,
    GameStarted,
    SessionResponse,
    TurnStart,
    LogicError,
    GameEnded,
}

/// Kinds of client frames.
#[derive(Clone, Copy, Debug, PartialEq, Eq, Structural)]
pub enum ClientEventCode {
    JoinSession,
    CreateSession,
    LeaveSession,
    SessionRequest,
    StartGame,
    Play,
}

/// A server frame addressed to one connected client.
#[derive(Clone, Debug)]
pub struct Outbound {
    pub recipient: String,
    pub event: ServerEvent,
}

/// The view of an optional string.
pub open spec fn opt_view(o: Option<String>) -> Option<Seq<char>> {
    match o {
        Some(s) => Some(s@),
        None => None,
    }
}

/// The recipients of a list of frames, in order.
pub open spec fn recipients(out: Seq<Outbound>) -> Seq<Seq<char>> {
    Seq::new(out.len(), |i: int| out[i].recipient@)
}

/// `e` announces that `client` joined session `session`, whose members are `ids`.
pub open spec fn joined_event(e: ServerEvent, session: Seq<char>, client: Seq<char>, ids: Seq<Seq<char>>) -> bool {
    &&& e.event_code == ServerEventCode::ClientJoined
    &&& e.message is None
    &&& e.data matches Some(d) && {
        &&& opt_view(d.session_id) == Some(session)
        &&& opt_view(d.client_id) == Some(client)
        &&& d.session_client_ids matches Some(v) && ids_of(v@) == ids
        &&& d.game_data is None
    }
}

/// `e` announces that `client` left its session.
pub open spec fn left_event(e: ServerEvent, client: Seq<char>) -> bool {
    &&& e.event_code == ServerEventCode::ClientLeft
    &&& e.message is None
    &&& e.data matches Some(d) && {
        &&& d.session_id is None
        &&& opt_view(d.client_id) == Some(client)
        &&& d.session_client_ids is None
        &&& d.game_data is None
    }
}

/// `e` reports a logic error with the text `message`.
pub open spec fn error_event(e: ServerEvent, message: Seq<char>) -> bool {
    &&& e.event_code == ServerEventCode::LogicError
    &&& e.message matches Some(m) && m@ == message
    &&& e.data is None
}

/// `d` shows game `g` as `viewer` may see it (`None`: the raw board).
pub open spec fn shows_game(d: GameData, g: GameState, viewer: Option<Seq<char>>) -> bool {
    &&& d.turn_index == g.turn_index
    &&& d.player_order@ == g.player_turn_order@
    &&& cells_of(&d.play_indexes) == match viewer {
        Some(v) => redact_board(g.cells(), g.order(), v),
        None => g.cells(),
    }
}

/// `e` is a game frame of kind `code` naming `player`, if any, showing game
/// `g` as `viewer` may see it.
pub open spec fn game_event(
    e: ServerEvent,
    code: ServerEventCode,
    player: Option<Seq<char>>,
    g: GameState,
    viewer: Option<Seq<char>>,
) -> bool {
    &&& e.event_code == code
    &&& e.message is None
    &&& e.data matches Some(d) && {
        &&& d.session_id is None
        &&& opt_view(d.client_id) == player
        &&& d.session_client_ids is None
        &&& d.game_data matches Some(gd) && shows_game(gd, g, viewer)
    }
}

/// `e` answers a status request: the session, its members, and the game as
/// `viewer` may see it, if there is one.
pub open spec fn status_event(
    e: ServerEvent,
    session: Seq<char>,
    ids: Seq<Seq<char>>,
    g: Option<GameState>,
    viewer: Seq<char>,
) -> bool {
    &&& e.event_code == ServerEventCode::SessionResponse
    &&& e.message is None
    &&& e.data matches Some(d) && {
        &&& opt_view(d.session_id) == Some(session)
        &&& d.client_id is None
        &&& d.session_client_ids matches Some(v) && ids_of(v@) == ids
        &&& match g {
            Some(game) => d.game_data matches Some(gd) && shows_game(gd, game, Some(viewer)),
            None => d.game_data is None,
        }
    }
}

/// A frame announcing that `client` joined `session`, whose members are `ids`.
pub fn joined_event_for(session: &String, client: &String, ids: Vec<String>) -> (e: ServerEvent)
    ensures
        joined_event(e, session@, client@, ids_of(ids@)),
{
    Event {
        event_code: ServerEventCode::ClientJoined,
        message: None,
        data: Some(
            ServerEventData {
                session_id: Some(session.clone()),
                client_id: Some(client.clone()),
                session_client_ids: Some(ids),
                game_data: None,
            },
        ),
    }
}

/// A frame announcing that `client` left its session.
pub fn left_event_for(client: &String) -> (e: ServerEvent)
    ensures
        left_event(e, client@),
{
    Event {
        event_code: ServerEventCode::ClientLeft,
        message: None,
        data: Some(
            ServerEventData { session_id: None, client_id: Some(client.clone()), session_client_ids: None, game_data: None },
        ),
    }
}

/// A frame reporting a logic error.
pub fn error_event_for(message: &str) -> (e: ServerEvent)
    ensures
        error_event(e, message@),
{
    Event { event_code: ServerEventCode::LogicError, message: Some(message.to_owned()), data: None }
}

/// A game frame of kind `code` naming `player`, if any, showing `g` as `viewer` may see it.
pub fn game_event_for(
    code: ServerEventCode,
    player: Option<String>,
    g: &GameState,
    viewer: Option<&str>,
) -> (e: ServerEvent)
    ensures
        game_event(
            e,
            code,
            opt_view(player),
            *g,
            match viewer {
                Some(v) => Some(v@),
                None => None,
            },
        ),
{
    let gd = g.as_shared_game_data(viewer);
    Event {
        event_code: code,
        message: None,
        data: Some(
            ServerEventData { session_id: None, client_id: player, session_client_ids: None, game_data: Some(gd) },
        ),
    }
}

/// A reply to a status request: the session, its members, and the game as
/// `viewer` may see it, if there is one.
pub fn status_event_for(session: &String, ids: Vec<String>, g: Option<&GameState>, viewer: &str) -> (e: ServerEvent)
    ensures
        status_event(
            e,
            session@,
            ids_of(ids@),
            match g {
                Some(x) => Some(*x),
                None => None,
            },
            viewer@,
        ),
{
    let game_data = match g {
        Some(x) => Some(x.as_shared_game_data(Some(viewer))),
        None => None,
    };
    Event {
        event_code: ServerEventCode::SessionResponse,
        message: None,
        data: Some(
            ServerEventData {
                session_id: Some(session.clone()),
                client_id: None,
                session_client_ids: Some(ids),
                game_data,
            },
        ),
    }
}

/// Whether a text frame is a keep-alive rather than a protocol event.
pub fn is_ping(text: &str) -> (r: bool)
    ensures
        r == (text@ == "ping"@ || text@ == "ping\n"@),
{
    let t = text.to_owned();
    t == "ping".to_owned() || t == "ping\n".to_owned()
}

} // verus!
