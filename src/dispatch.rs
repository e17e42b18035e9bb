//! Commands of connected clients: session membership, game start and moves.
use crate::board_laws::lemma_first_index_from;
use crate::assoc::{lemma_map_of, lemma_map_of_push, lemma_map_of_update};
use crate::game::{
    create_game_board, drop_token, empty_board, first_empty, first_index, has_room, ids_of, wins, GameState,
    BOARD_HEIGHT, BOARD_WIDTH, RUN_TO_WIN,
};
use crate::protocol::{
    error_event, error_event_for, game_event, game_event_for, joined_event, joined_event_for, left_event, left_event_for,
    opt_view, recipients, status_event, status_event_for, ClientEvent, ClientEventCode, Outbound, ServerEvent,
    ServerEventCode,
};
use crate::registry::{
    any_active, client_pairs, game_pairs, lemma_membership_change, lemma_remove_session, lemma_same_membership,
    lemma_session_of, maps_ok, member_of, members_changed, session_of, session_pairs, session_updated, GameEntry,
    Registry,
};
use crate::rand_ids::{get_rand_session_id, is_session_code, shuffled};
use crate::session::{set_new_session_owner, Session};
use vstd::prelude::*;

verus! {

/// The members of `s` that are connected, in order of arrival.
pub open spec fn audience(s: Session, cm: Map<Seq<char>, Option<Seq<char>>>) -> Seq<Seq<char>> {
    s.member_ids().filter(connected(cm))
}

/// Whether an identity is connected.
pub open spec fn connected(cm: Map<Seq<char>, Option<Seq<char>>>) -> spec_fn(Seq<char>) -> bool {
    |k: Seq<char>| cm.contains_key(k)
}

/// What a broadcast tells each recipient.
enum Notice {
    Joined { session: String, client: String },
    Left { client: String },
    Error { message: String },
    Game { code: ServerEventCode, player: Option<String>, redacted: bool },
}

/// `e` is the frame that `n` makes for recipient `to` of session `s`.
spec fn notice_ok(n: Notice, s: Session, g: Option<GameState>, to: Seq<char>, e: ServerEvent) -> bool {
    match n {
        Notice::Joined { session, client } => joined_event(e, session@, client@, s.member_ids()),
        Notice::Left { client } => left_event(e, client@),
        Notice::Error { message } => error_event(e, message@),
        Notice::Game { code, player, redacted } => g matches Some(game) && game_event(
            e,
            code,
            opt_view(player),
            game,
            if redacted {
                Some(to)
            } else {
                None
            },
        ),
    }
}

/// The view of an optional borrowed game.
spec fn game_opt(g: Option<&GameState>) -> Option<GameState> {
    match g {
        Some(x) => Some(*x),
        None => None,
    }
}

/// Whether session `sid` is still there after `id` leaves its session.
pub open spec fn survives_leave(sm: Map<Seq<char>, Session>, id: Seq<char>, sid: Seq<char>) -> bool {
    &&& sm.contains_key(sid)
    &&& (session_of(sm, id) == Some(sid) ==> any_active(sm[sid].members().remove(id)))
}

/// Text of the error for a session code that is taken.
pub open spec fn code_taken_text() -> Seq<char> {
    "That session code is already in use."@
}

/// Text of the error for joining a session whose game has started.
pub open spec fn game_started_text() -> Seq<char> {
    "This session's game has already started."@
}

/// What `leave_session` does. A connected client in a session is announced
/// as leaving to that session's connected members and taken out of it. The
/// session goes on, game and all, while an active member remains, and an owner
/// who left is replaced by an active member; otherwise the session and its game
/// are removed. In every other case nothing changes and nothing is sent.
pub open spec fn leave_effect(r0: Registry, r1: Registry, client: Seq<char>, out: Seq<Outbound>) -> bool {
    &&& ({
        let cm = r0.client_map();
        let sm = r0.session_map();
        let gm = r0.game_map();
        let s = session_of(sm, client)->Some_0;
        let rest = sm[s].members().remove(client);
        cm.contains_key(client) && session_of(sm, client) is Some ==> {
            &&& recipients(out) == audience(sm[s], cm)
            &&& forall|i: int| 0 <= i < out.len() ==> left_event(#[trigger] out[i].event, client)
            &&& r1.client_map() == cm.insert(client, None)
            &&& if any_active(rest) {
                &&& session_updated(sm, r1.session_map(), s, rest)
                &&& r1.game_map() == gm
                &&& if sm[s].owner@ == client {
                    let owner = r1.session_map()[s].owner@;
                    rest.contains_key(owner) && rest[owner]
                } else {
                    r1.session_map()[s].owner == sm[s].owner
                }
            } else {
                &&& r1.session_map() == sm.remove(s)
                &&& r1.game_map() == gm.remove(s)
            }
        }
    })
    &&& (!(r0.client_map().contains_key(client) && session_of(r0.session_map(), client) is Some)
        ==> r1 == r0 && out.len() == 0)
}

/// What `create_session` does. A connected client first leaves its session
/// as `leave_effect` says; the last frame then goes to the client: it joined
/// the requested session code, or a fresh random one, as owner and only
/// member, or, where that code names a live session, a logic error. A client
/// that is not connected changes nothing.
pub open spec fn create_effect(
    r0: Registry,
    r1: Registry,
    client: Seq<char>,
    requested: Option<Seq<char>>,
    out: Seq<Outbound>,
) -> bool {
    &&& (!r0.client_map().contains_key(client) ==> r1 == r0 && out.len() == 0)
    &&& (r0.client_map().contains_key(client) ==> {
        let placed = r1.client_map()[client];
        &&& r1.client_map() == r0.client_map().insert(client, placed)
        &&& exists|mid: Registry| #[trigger]
            leave_effect(r0, mid, client, out.drop_last()) && r1.game_map() == mid.game_map() && match placed {
                Some(code) => r1.session_map() == mid.session_map().insert(code, r1.session_map()[code]),
                None => r1.session_map() == mid.session_map(),
            }
        &&& out.len() > 0
        &&& out.last().recipient@ == client
        &&& forall|i: int| 0 <= i < out.len() - 1 ==> left_event(#[trigger] out[i].event, client)
        &&& match requested {
            Some(code) => placed is None <==> survives_leave(r0.session_map(), client, code),
            None => {
                &&& placed matches Some(code) ==> is_session_code(code)
                &&& placed is None ==> exists|c: Seq<char>|
                    is_session_code(c) && #[trigger] survives_leave(r0.session_map(), client, c)
            },
        }
        &&& match placed {
            Some(code) => {
                &&& requested matches Some(c) ==> c == code
                &&& r1.session_map()[code].owner@ == client
                &&& r1.session_map()[code].members() == Map::<Seq<char>, bool>::empty().insert(
                    client,
                    true,
                )
                &&& !r1.game_map().contains_key(code)
                &&& joined_event(out.last().event, code, client, seq![client])
            },
            None => error_event(out.last().event, code_taken_text()),
        }
    })
}

/// How many of the frames of a join come from leaving the previous session:
/// all but the join notices when the client is taken in, all but the last
/// frame otherwise.
pub open spec fn leave_frames(r0: Registry, r1: Registry, client: Seq<char>, sid: Seq<char>, out: Seq<Outbound>) -> int {
    if survives_leave(r0.session_map(), client, sid) && !r0.game_map().contains_key(sid) {
        out.len() - audience(r1.session_map()[sid], r1.client_map()).len()
    } else {
        out.len() - 1
    }
}

/// What `join_session` does. A connected client first leaves its session as
/// `leave_effect` says. Then: a live session `sid` with a game refuses it with
/// a logic error; a live session without a game takes it as an active member
/// and every connected member hears of it; otherwise `sid` is opened with the
/// client as owner and only member. A client that is not connected changes nothing.
pub open spec fn join_effect(r0: Registry, r1: Registry, client: Seq<char>, sid: Seq<char>, out: Seq<Outbound>) -> bool {
    &&& (!r0.client_map().contains_key(client) ==> r1 == r0 && out.len() == 0)
    &&& (r0.client_map().contains_key(client) ==> {
        let sm = r0.session_map();
        let placed = r1.client_map()[client];
        &&& r1.client_map() == r0.client_map().insert(client, placed)
        &&& r1.session_map().contains_key(sid)
        &&& exists|mid: Registry| #[trigger]
            leave_effect(r0, mid, client, out.subrange(0, leave_frames(r0, r1, client, sid, out)))
                && r1.game_map() == mid.game_map() && r1.session_map() == mid.session_map().insert(
                sid,
                r1.session_map()[sid],
            )
        &&& if survives_leave(sm, client, sid) && r0.game_map().contains_key(sid) {
            &&& placed is None
            &&& r1.session_map()[sid].members() == sm[sid].members().remove(client)
            &&& r1.game_map()[sid] == r0.game_map()[sid]
            &&& out.len() > 0
            &&& out.last().recipient@ == client
            &&& error_event(out.last().event, game_started_text())
            &&& forall|i: int| 0 <= i < out.len() - 1 ==> left_event(#[trigger] out[i].event, client)
        } else if survives_leave(sm, client, sid) {
            let joined = r1.session_map()[sid];
            let heard = audience(joined, r1.client_map());
            let n = out.len() - heard.len();
            &&& placed == Some(sid)
            &&& joined.members() == sm[sid].members().insert(client, true)
            &&& sm[sid].owner@ != client ==> joined.owner == sm[sid].owner
            &&& !r1.game_map().contains_key(sid)
            &&& n >= 0
            &&& forall|i: int| 0 <= i < n ==> left_event(#[trigger] out[i].event, client)
            &&& forall|i: int|
                n <= i < out.len() ==> #[trigger] out[i].recipient@ == heard[i - n] && joined_event(
                    out[i].event,
                    sid,
                    client,
                    joined.member_ids(),
                )
        } else {
            &&& placed == Some(sid)
            &&& r1.session_map()[sid].owner@ == client
            &&& r1.session_map()[sid].members() == Map::<Seq<char>, bool>::empty().insert(
                client,
                true,
            )
            &&& !r1.game_map().contains_key(sid)
            &&& out.len() > 0
            &&& out.last().recipient@ == client
            &&& joined_event(out.last().event, sid, client, seq![client])
            &&& forall|i: int| 0 <= i < out.len() - 1 ==> left_event(#[trigger] out[i].event, client)
        }
    })
}

/// At least two distinct members are active.
pub open spec fn two_active(m: Map<Seq<char>, bool>) -> bool {
    exists|a: Seq<char>, b: Seq<char>| a != b && #[trigger] m.contains_key(a) && #[trigger] m.contains_key(b) && m[a] && m[b]
}

/// Text of the error for starting a game with too few players.
pub open spec fn too_few_text() -> Seq<char> {
    "Need at least 2 players to start a game."@
}

/// Text of the error for playing out of turn.
pub open spec fn not_your_turn_text() -> Seq<char> {
    "It is not your turn to play."@
}

/// Text of the error for playing into a full or missing column.
pub open spec fn column_full_text() -> Seq<char> {
    "This column has reached its max."@
}

/// A single frame for `to`.
pub open spec fn reply_to(out: Seq<Outbound>, to: Seq<char>) -> bool {
    out.len() == 1 && out[0].recipient@ == to
}

/// What `start_game` does. In the session of a connected client with at
/// least two active members, a game starts on an empty board with turn index 0
/// and the members in some order; each connected member hears that it started
/// and then whose turn it is, each with the board redacted for that member.
/// With fewer active members the connected members hear a logic error and no
/// game starts.
pub open spec fn start_effect(r0: Registry, r1: Registry, client: Seq<char>, out: Seq<Outbound>) -> bool {
    let cm = r0.client_map();
    let sm = r0.session_map();
    let gm = r0.game_map();
    let s = session_of(sm, client)->Some_0;
    &&& (!(cm.contains_key(client) && session_of(sm, client) is Some) ==> r1 == r0 && out.len() == 0)
    &&& (cm.contains_key(client) && session_of(sm, client) is Some ==> {
        let heard = audience(sm[s], cm);
        let n = heard.len() as int;
        &&& r1.client_map() == cm
        &&& r1.session_map() == sm
        &&& if two_active(sm[s].members()) {
            let g = r1.game_map()[s];
            &&& r1.game_map() == gm.insert(s, g)
            &&& g.wf()
            &&& g.turn_index == 0
            &&& g.cells() == empty_board(BOARD_WIDTH as nat, BOARD_HEIGHT as nat)
            &&& g.player_turn_order@.to_multiset() == sm[s].member_strings().to_multiset()
            &&& out.len() == 2 * n
            &&& forall|i: int|
                0 <= i < n ==> #[trigger] out[i].recipient@ == heard[i] && game_event(
                    out[i].event,
                    ServerEventCode::GameStarted,
                    None,
                    g,
                    Some(heard[i]),
                )
            &&& forall|i: int|
                0 <= i < n ==> #[trigger] out[n + i].recipient@ == heard[i] && game_event(
                    out[n + i].event,
                    ServerEventCode::TurnStart,
                    Some(g.order()[0]),
                    g,
                    Some(heard[i]),
                )
        } else {
            &&& r1.game_map() == gm
            &&& recipients(out) == heard
            &&& forall|i: int| 0 <= i < out.len() ==> error_event(#[trigger] out[i].event, too_few_text())
        }
    })
}

/// What `play_column` does. In the game of a connected client's session: a
/// client whose turn it is not gets a logic error and nothing changes; a full
/// or missing column gets a logic error and nothing changes; otherwise the
/// token drops, the turn passes on, and each connected member hears either that
/// the client won, with the raw board, or whose turn is next, with the board
/// redacted for that member.
pub open spec fn play_effect(r0: Registry, r1: Registry, client: Seq<char>, column: int, out: Seq<Outbound>) -> bool {
    let cm = r0.client_map();
    let sm = r0.session_map();
    let gm = r0.game_map();
    let s = session_of(sm, client)->Some_0;
    let g = gm[s];
    let p = first_index(g.order(), client)->Some_0;
    let row = first_empty(g.cells()[column]);
    &&& (!(cm.contains_key(client) && session_of(sm, client) is Some && gm.contains_key(s)) ==> r1 == r0
        && out.len() == 0)
    &&& (cm.contains_key(client) && session_of(sm, client) is Some && gm.contains_key(s) ==> {
        if g.order()[g.turn_index as int] != client {
            &&& r1 == r0
            &&& reply_to(out, client)
            &&& error_event(out[0].event, not_your_turn_text())
        } else if !has_room(g.cells(), column) {
            &&& r1.client_map() == cm
            &&& r1.session_map() == sm
            &&& r1.game_map() == gm
            &&& reply_to(out, client)
            &&& error_event(out[0].event, column_full_text())
        } else {
            let g2 = r1.game_map()[s];
            let won = wins(g2.cells(), column, row, p, RUN_TO_WIN as nat);
            &&& r1.client_map() == cm
            &&& r1.session_map() == sm
            &&& r1.game_map() == gm.insert(s, g2)
            &&& first_index(g.order(), client) is Some
            &&& g2.cells() == drop_token(g.cells(), column, p)
            &&& g2.player_turn_order == g.player_turn_order
            &&& g2.turn_index == (g.turn_index + 1) % (g.player_turn_order@.len() as int)
            &&& recipients(out) == audience(sm[s], cm)
            &&& forall|i: int|
                0 <= i < out.len() ==> if won {
                    game_event(#[trigger] out[i].event, ServerEventCode::GameEnded, Some(client), g2, None)
                } else {
                    game_event(
                        #[trigger] out[i].event,
                        ServerEventCode::TurnStart,
                        Some(g2.order()[g2.turn_index as int]),
                        g2,
                        Some(out[i].recipient@),
                    )
                }
        }
    })
}

/// What `session_status` answers: to a connected client in a session, its
/// session code, the members, and the game redacted for the client, if there
/// is one; to anyone else, nothing.
pub open spec fn status_effect(r: Registry, client: Seq<char>, out: Seq<Outbound>) -> bool {
    let cm = r.client_map();
    let sm = r.session_map();
    let gm = r.game_map();
    let s = session_of(sm, client)->Some_0;
    &&& (!(cm.contains_key(client) && session_of(sm, client) is Some) ==> out.len() == 0)
    &&& (cm.contains_key(client) && session_of(sm, client) is Some ==> {
        &&& reply_to(out, client)
        &&& status_event(
            out[0].event,
            s,
            sm[s].member_ids(),
            if gm.contains_key(s) {
                Some(gm[s])
            } else {
                None
            },
            client,
        )
    })
}

/// A session with a game never gains a member by a join: whatever the
/// joining client did before, the members of that session afterwards are
/// among its members before, and its game is untouched.
pub proof fn lemma_join_never_adds_to_started_game(
    r0: Registry,
    r1: Registry,
    client: Seq<char>,
    sid: Seq<char>,
    out: Seq<Outbound>,
)
    requires
        r0.wf(),
        join_effect(r0, r1, client, sid, out),
        r0.game_map().contains_key(sid),
        survives_leave(r0.session_map(), client, sid),
    ensures
        r1.session_map()[sid].members().dom().subset_of(r0.session_map()[sid].members().dom()),
        r1.game_map()[sid] == r0.game_map()[sid],
{
    lemma_map_of(client_pairs(r0.clients@));
    assert(r0.client_map().contains_key(client) ==> r1.session_map()[sid].members().dom() =~= r0.session_map()[
        sid].members().dom().remove(client));
}

impl Registry {
    /// One frame of `notice` for each connected member of session `si`.
    fn broadcast(&self, si: usize, notice: &Notice, game: Option<&GameState>) -> (out: Vec<Outbound>)
        requires
            self.wf(),
            si < self.sessions@.len(),
            notice is Game ==> game is Some,
        ensures
            recipients(out@) == audience(self.sessions@[si as int], self.client_map()),
            forall|i: int|
                0 <= i < out@.len() ==> notice_ok(
                    *notice,
                    self.sessions@[si as int],
                    game_opt(game),
                    #[trigger] out@[i].recipient@,
                    out@[i].event,
                ),
    {
        proof {
            lemma_map_of(client_pairs(self.clients@));
        }
        let ghost s = self.sessions@[si as int];
        let ghost ids = s.member_ids();
        let ghost pred = connected(self.client_map());
        let mut out: Vec<Outbound> = Vec::new();
        let mut j: usize = 0;
        while j < self.sessions[si].client_statuses.len()
            invariant
                self.wf(),
                si < self.sessions@.len(),
                s == self.sessions@[si as int],
                ids == s.member_ids(),
                pred == connected(self.client_map()),
                notice is Game ==> game is Some,
                j <= ids.len(),
                recipients(out@) == ids.subrange(0, j as int).filter(pred),
                forall|i: int|
                    0 <= i < out@.len() ==> notice_ok(*notice, s, game_opt(game), #[trigger] out@[i].recipient@, out@[i].event),
            decreases ids.len() - j,
        {
            let m = &self.sessions[si].client_statuses[j];
            proof {
                ids.subrange(0, j as int).lemma_filter_push(ids[j as int], pred);
                assert(ids.subrange(0, j as int + 1) =~= ids.subrange(0, j as int).push(ids[j as int]));
            }
            let ghost before = recipients(out@);
            if self.find_client(&m.id).is_some() {
                let event = match notice {
                    Notice::Joined { session, client } => joined_event_for(
                        session,
                        client,
                        self.sessions[si].get_client_ids(),
                    ),
                    Notice::Left { client } => left_event_for(client),
                    Notice::Error { message } => error_event_for(message.as_str()),
                    Notice::Game { code, player, redacted } => {
                        let g = match game {
                            Some(g) => g,
                            None => {
                                return out;
                            },
                        };
                        let viewer = if *redacted {
                            Some(m.id.as_str())
                        } else {
                            None
                        };
                        let named = match player {
                            Some(p) => Some(p.clone()),
                            None => None,
                        };
                        game_event_for(*code, named, g, viewer)
                    },
                };
                out.push(Outbound { recipient: m.id.clone(), event });
                assert(recipients(out@) =~= before.push(ids[j as int]));
            } else {
                assert(recipients(out@) =~= before);
            }
            j = j + 1;
        }
        assert(ids.subrange(0, ids.len() as int) =~= ids);
        out
    }

    /// Removes client `client_id` from the session it is a member of, after
    /// telling that session's connected members. The session and its game
    /// go when no active member is left; otherwise an owner who leaves hands
    /// the session to an active member.
    pub fn leave_session(&mut self, client_id: &str) -> (out: Vec<Outbound>)
        requires
            old(self).wf(),
        ensures
            final(self).wf(),
            leave_effect(*old(self), *final(self), client_id@, out@),
    {
        let key = client_id.to_owned();
        let ci = match self.find_client(&key) {
            Some(ci) => ci,
            None => return Vec::new(),
        };
        let si = match self.find_membership(&key) {
            Some(si) => si,
            None => return Vec::new(),
        };
        let ghost cm0 = self.client_map();
        let ghost sm0 = self.session_map();
        let ghost gm0 = self.game_map();
        let ghost sid = self.sessions@[si as int].id@;
        proof {
            self.lemma_entries();
            assert(sm0[sid] == self.sessions@[si as int]);
        }
        let notice = Notice::Left { client: key.clone() };
        let out = self.broadcast(si, &notice, None);
        assert forall|i: int| 0 <= i < out@.len() implies left_event(#[trigger] out@[i].event, client_id@) by {
            assert(notice_ok(notice, sm0[sid], None, out@[i].recipient@, out@[i].event));
        }
        // leave the session
        let ghost pairs0 = session_pairs(self.sessions@);
        self.sessions[si].remove_client(client_id);
        let ghost s1 = self.sessions@[si as int];
        proof {
            assert(session_pairs(self.sessions@) =~= pairs0.update(si as int, (pairs0[si as int].0, s1)));
            lemma_map_of_update(pairs0, si as int, s1);
        }
        // forget the session on the client's side
        let ghost cpairs0 = client_pairs(self.clients@);
        self.clients[ci].session_id = None;
        proof {
            assert(client_pairs(self.clients@) =~= cpairs0.update(ci as int, (cpairs0[ci as int].0, None)));
            lemma_map_of_update(cpairs0, ci as int, None);
        }
        let ghost sm1 = self.session_map();
        let ghost cm1 = self.client_map();
        proof {
            lemma_session_of(sm0, sid, client_id@);
            assert(sm1.dom() =~= sm0.dom());
            assert forall|t: Seq<char>, k: Seq<char>| k != client_id@ implies member_of(sm1, t, k) == member_of(sm0, t, k) by {}
            assert forall|t: Seq<char>| !member_of(sm1, t, client_id@) by {
                if member_of(sm1, t, client_id@) {
                    assert(member_of(sm0, t, client_id@));
                    assert(member_of(sm0, sid, client_id@));
                }
            }
            lemma_membership_change(sm0, sm1, client_id@);
            assert(session_of(sm1, client_id@) is None);
        }
        let active = self.sessions[si].get_clients_with_active_status(true);
        proof {
            assert(cm1 == cm0.insert(client_id@, None));
            assert(cm1.dom() =~= cm0.dom());
        }
        if active.len() == 0 {
            assert(!any_active(s1.members())) by {
                if any_active(s1.members()) {
                    let k = choose|k: Seq<char>| #[trigger] s1.members().contains_key(k) && s1.members()[k];
                    assert(ids_of(active@).contains(k));
                }
            }
            let sid_exec = self.sessions[si].id.clone();
            self.cleanup_session(sid_exec.as_str());
            proof {
                let sm2 = self.session_map();
                let gm2 = self.game_map();
                assert(sm2 =~= sm0.remove(sid));
                lemma_remove_session(sm1, sid);
                assert forall|c: Seq<char>| #[trigger] cm1.contains_key(c) implies cm1[c] == session_of(sm2, c) by {
                    if c != client_id@ {
                        assert(cm0.contains_key(c));
                        if session_of(sm1, c) == Some(sid) {
                            assert(member_of(sm1, sid, c)) by {
                                let t = choose|t: Seq<char>| #[trigger] member_of(sm1, t, c);
                                assert(member_of(sm1, t, c));
                                lemma_session_of(sm1, t, c);
                            }
                            assert(member_of(sm0, sid, c));
                            assert(s1.members().contains_key(c) && s1.members()[c]);
                        }
                    }
                }
                assert forall|t: Seq<char>, k: Seq<char>| #[trigger] member_of(sm2, t, k) implies (sm2[t].members()[k]
                    <==> cm1.contains_key(k)) by {
                    assert(member_of(sm0, t, k));
                }
                assert forall|g: Seq<char>| #[trigger] gm2.contains_key(g) implies gm2[g].wf() && sm2.contains_key(g) by {
                    assert(gm0.contains_key(g));
                }
                assert forall|t: Seq<char>| #[trigger] sm2.contains_key(t) implies sm2[t].wf() && sm2[t].id@ == t by {
                    assert(sm0.contains_key(t));
                }
                assert(maps_ok(cm1, sm2, gm2));
            }
        } else {
            assert(any_active(s1.members())) by {
                assert(ids_of(active@).contains(ids_of(active@)[0]));
            }
            if self.sessions[si].owner == key {
                let ghost pairs1 = session_pairs(self.sessions@);
                proof {
                    lemma_map_of(pairs1);
                    assert(ids_of(active@).contains(ids_of(active@)[0]));
                }
                assert(active[0]@ == ids_of(active@)[0]);
                set_new_session_owner(&mut self.sessions[si], &active[0]);
                let ghost s2 = self.sessions@[si as int];
                proof {
                    assert(s2.entries() == s1.entries());
                    assert(session_pairs(self.sessions@) =~= pairs1.update(si as int, (pairs1[si as int].0, s2)));
                    lemma_map_of_update(pairs1, si as int, s2);
                }
            }
            proof {
                let sm2 = self.session_map();
                assert(sm2.dom() =~= sm1.dom());
                assert(self.game_map() == gm0);
                assert forall|t: Seq<char>, k: Seq<char>| member_of(sm2, t, k) == member_of(sm1, t, k) by {}
                lemma_same_membership(sm1, sm2);
                assert forall|c: Seq<char>| #[trigger] cm1.contains_key(c) implies cm1[c] == session_of(sm2, c) by {
                    if c != client_id@ {
                        assert(cm0.contains_key(c));
                    }
                }
                assert forall|t: Seq<char>, k: Seq<char>| #[trigger] member_of(sm2, t, k) implies (sm2[t].members()[k]
                    <==> cm1.contains_key(k)) by {
                    assert(member_of(sm0, t, k));
                }
                assert forall|g: Seq<char>| #[trigger] gm0.contains_key(g) implies gm0[g].wf() && sm2.contains_key(g) by {}
                assert forall|t: Seq<char>| #[trigger] sm2.contains_key(t) implies sm2[t].wf() && sm2[t].id@ == t by {
                    assert(sm0.contains_key(t));
                }
                assert(maps_ok(cm1, sm2, gm0));
                assert(session_updated(sm0, sm2, sid, s1.members()));
                assert(s1.members() == sm0[sid].members().remove(client_id@));
            }
        }
        assert(session_of(sm0, client_id@) == Some(sid));
        out
    }

    /// Opens session `code` with the connected client at `ci`, who is in no
    /// session, as its owner and only member.
    fn open_session(&mut self, ci: usize, code: String) -> (out: Vec<Outbound>)
        requires
            old(self).wf(),
            ci < old(self).clients@.len(),
            session_of(old(self).session_map(), old(self).clients@[ci as int].id@) is None,
            !old(self).session_map().contains_key(code@),
        ensures
            final(self).wf(),
            ({
                let id = old(self).clients@[ci as int].id@;
                let s = final(self).session_map()[code@];
                &&& final(self).client_map() == old(self).client_map().insert(id, Some(code@))
                &&& final(self).session_map().dom() == old(self).session_map().dom().insert(code@)
                &&& forall|t: Seq<char>| #[trigger] old(self).session_map().contains_key(t)
                    ==> final(self).session_map()[t] == old(self).session_map()[t]
                &&& s.owner@ == id
                &&& s.members() == Map::<Seq<char>, bool>::empty().insert(id, true)
                &&& final(self).game_map() == old(self).game_map()
                &&& out@.len() == 1
                &&& out@[0].recipient@ == id
                &&& joined_event(out@[0].event, code@, id, seq![id])
            }),
    {
        let ghost cm0 = self.client_map();
        let ghost sm0 = self.session_map();
        let ghost gm0 = self.game_map();
        proof {
            self.lemma_entries();
        }
        let id = self.clients[ci].id.clone();
        let ghost cpairs0 = client_pairs(self.clients@);
        let session = Session::new(code.clone(), id.clone());
        let ghost s = session;
        proof {
            lemma_map_of_push(session_pairs(self.sessions@), (code@, session));
            lemma_map_of_update(cpairs0, ci as int, Some(code@));
        }
        let ghost spairs0 = session_pairs(self.sessions@);
        self.sessions.push(session);
        assert(session_pairs(self.sessions@) =~= spairs0.push((code@, s)));
        self.clients[ci].session_id = Some(code.clone());
        assert(client_pairs(self.clients@) =~= cpairs0.update(ci as int, (cpairs0[ci as int].0, Some(code@))));
        let ghost cm1 = self.client_map();
        let ghost sm1 = self.session_map();
        proof {
            assert(sm1 == sm0.insert(code@, s));
            assert(cm1.dom() =~= cm0.dom());
            assert forall|t: Seq<char>, k: Seq<char>| k != id@ implies member_of(sm1, t, k) == member_of(sm0, t, k) by {
                if t == code@ {
                    assert(!s.members().contains_key(k));
                }
            }
            assert forall|t1: Seq<char>, t2: Seq<char>| member_of(sm1, t1, id@) && member_of(sm1, t2, id@) implies t1 == t2 by {
                if t1 != code@ {
                    assert(member_of(sm0, t1, id@));
                }
                if t2 != code@ {
                    assert(member_of(sm0, t2, id@));
                }
            }
            lemma_membership_change(sm0, sm1, id@);
            assert(member_of(sm1, code@, id@));
            lemma_session_of(sm1, code@, id@);
            assert forall|c: Seq<char>| #[trigger] cm1.contains_key(c) implies cm1[c] == session_of(sm1, c) by {
                if c != id@ {
                    assert(cm0.contains_key(c));
                }
            }
            assert forall|t: Seq<char>, k: Seq<char>| #[trigger] member_of(sm1, t, k) implies (sm1[t].members()[k]
                <==> cm1.contains_key(k)) by {
                if t != code@ {
                    assert(member_of(sm0, t, k));
                    if k == id@ {
                        lemma_session_of(sm0, t, k);
                    }
                }
            }
            assert forall|g: Seq<char>| #[trigger] gm0.contains_key(g) implies gm0[g].wf() && sm1.contains_key(g) by {}
            assert forall|t: Seq<char>| #[trigger] sm1.contains_key(t) implies sm1[t].wf() && sm1[t].id@ == t by {
                if t != code@ {
                    assert(sm0.contains_key(t));
                }
            }
            assert(maps_ok(cm1, sm1, gm0));
        }
        let ids = vec![id.clone()];
        assert(ids_of(ids@) =~= seq![id@]);
        let event = joined_event_for(&code, &id, ids);
        vec![Outbound { recipient: id, event }]
    }

    /// Adds the connected client at `ci`, who is in no session, to session `si` as an active member.
    fn add_member(&mut self, ci: usize, si: usize)
        requires
            old(self).wf(),
            ci < old(self).clients@.len(),
            si < old(self).sessions@.len(),
            session_of(old(self).session_map(), old(self).clients@[ci as int].id@) is None,
        ensures
            final(self).wf(),
            final(self).sessions@.len() == old(self).sessions@.len(),
            ({
                let id = old(self).clients@[ci as int].id@;
                let sid = old(self).sessions@[si as int].id@;
                &&& final(self).sessions@[si as int].id@ == sid
                &&& final(self).client_map() == old(self).client_map().insert(id, Some(sid))
                &&& members_changed(
                    old(self).session_map(),
                    final(self).session_map(),
                    sid,
                    old(self).session_map()[sid].members().insert(id, true),
                )
                &&& final(self).game_map() == old(self).game_map()
            }),
    {
        let ghost cm0 = self.client_map();
        let ghost sm0 = self.session_map();
        let ghost gm0 = self.game_map();
        proof {
            self.lemma_entries();
        }
        let id = self.clients[ci].id.clone();
        let sid = self.sessions[si].id.clone();
        let ghost spairs0 = session_pairs(self.sessions@);
        let ghost cpairs0 = client_pairs(self.clients@);
        assert(sm0[sid@] == self.sessions@[si as int]);
        self.sessions[si].insert_client(id.as_str(), true);
        let ghost s1 = self.sessions@[si as int];
        proof {
            assert(session_pairs(self.sessions@) =~= spairs0.update(si as int, (spairs0[si as int].0, s1)));
            lemma_map_of_update(spairs0, si as int, s1);
            lemma_map_of_update(cpairs0, ci as int, Some(sid@));
        }
        self.clients[ci].session_id = Some(sid);
        assert(client_pairs(self.clients@) =~= cpairs0.update(ci as int, (cpairs0[ci as int].0, Some(s1.id@))));
        proof {
            let cm1 = self.client_map();
            let sm1 = self.session_map();
            let t0 = s1.id@;
            assert(sm1.dom() =~= sm0.dom());
            assert(cm1.dom() =~= cm0.dom());
            assert forall|t: Seq<char>, k: Seq<char>| k != id@ implies member_of(sm1, t, k) == member_of(sm0, t, k) by {}
            assert forall|t1: Seq<char>, t2: Seq<char>| member_of(sm1, t1, id@) && member_of(sm1, t2, id@) implies t1 == t2 by {
                if t1 != t0 {
                    assert(member_of(sm0, t1, id@));
                }
                if t2 != t0 {
                    assert(member_of(sm0, t2, id@));
                }
            }
            lemma_membership_change(sm0, sm1, id@);
            assert(member_of(sm1, t0, id@));
            lemma_session_of(sm1, t0, id@);
            assert forall|c: Seq<char>| #[trigger] cm1.contains_key(c) implies cm1[c] == session_of(sm1, c) by {
                if c != id@ {
                    assert(cm0.contains_key(c));
                }
            }
            assert forall|t: Seq<char>, k: Seq<char>| #[trigger] member_of(sm1, t, k) implies (sm1[t].members()[k]
                <==> cm1.contains_key(k)) by {
                if k != id@ {
                    assert(member_of(sm0, t, k));
                }
            }
            assert forall|g: Seq<char>| #[trigger] gm0.contains_key(g) implies gm0[g].wf() && sm1.contains_key(g) by {}
            assert forall|t: Seq<char>| #[trigger] sm1.contains_key(t) implies sm1[t].wf() && sm1[t].id@ == t by {
                assert(sm0.contains_key(t));
            }
            assert(maps_ok(cm1, sm1, gm0));
        }
    }

    /// Moves client `client_id` out of its current session and into a new one
    /// that it owns, coded `session_id` or, for `None`, by a fresh random code.
    /// A code that names a live session is refused with a logic error.
    pub fn create_session(&mut self, client_id: &str, session_id: Option<String>) -> (out: Vec<Outbound>)
        requires
            old(self).wf(),
        ensures
            final(self).wf(),
            create_effect(
                *old(self),
                *final(self),
                client_id@,
                opt_view(session_id),
                out@,
            ),

    {
        let key = client_id.to_owned();
        if self.find_client(&key).is_none() {
            return Vec::new();
        }
        let ghost cm0 = self.client_map();
        let ghost sm0 = self.session_map();
        let mut out = self.leave_session(client_id);
        let ghost mid = *self;
        let ghost out_leave = out@;
        let ghost sm_mid = self.session_map();
        let ghost requested = opt_view(session_id);
        let code = match session_id {
            Some(c) => c,
            None => get_rand_session_id(),
        };
        assert(requested is None ==> is_session_code(code@));
        proof {
            lemma_map_of(client_pairs(self.clients@));
            assert(self.client_map().contains_key(client_id@));
            assert(session_of(sm_mid, client_id@) is None);
            if let Some(s) = session_of(sm0, client_id@) {
                assert(sm_mid.contains_key(code@) <==> survives_leave(sm0, client_id@, code@));
            } else {
                assert(sm_mid == sm0);
            }
        }
        let ci = match self.find_client(&key) {
            Some(ci) => ci,
            None => return out,
        };
        if self.find_session(&code).is_some() {
            let event = error_event_for("That session code is already in use.");
            out.push(Outbound { recipient: key, event });
            assert(self.client_map() =~= cm0.insert(client_id@, self.client_map()[client_id@]));
            assert(out@.drop_last() =~= out_leave);
            assert(leave_effect(*old(self), mid, client_id@, out@.drop_last()));
            assert(survives_leave(sm0, client_id@, code@));
            return out;
        }
        let mut more = self.open_session(ci, code);
        proof {
            assert(!self.game_map().contains_key(code@));
        }
        out.append(&mut more);
        assert(self.client_map() =~= cm0.insert(client_id@, self.client_map()[client_id@]));
        assert(out@.drop_last() =~= out_leave);
        assert(self.session_map() =~= mid.session_map().insert(code@, self.session_map()[code@]));
        assert(leave_effect(*old(self), mid, client_id@, out@.drop_last()));
        out
    }

    /// Moves client `client_id` out of its current session and into session
    /// `session_id`. A live session with a game takes no new member: the
    /// attempt is refused with a logic error. A live session without a game
    /// takes the client as an active member and tells all its connected
    /// members. A code that names no live session opens one with the client as owner.
    pub fn join_session(&mut self, client_id: &str, session_id: String) -> (out: Vec<Outbound>)
        requires
            old(self).wf(),
        ensures
            final(self).wf(),
            join_effect(*old(self), *final(self), client_id@, session_id@, out@),

    {
        let key = client_id.to_owned();
        if self.find_client(&key).is_none() {
            return Vec::new();
        }
        let ghost cm0 = self.client_map();
        let ghost sm0 = self.session_map();
        let ghost gm0 = self.game_map();
        let mut out = self.leave_session(client_id);
        let ghost mid = *self;
        let ghost sm_mid = self.session_map();
        let ghost gm_mid = self.game_map();
        let ghost out_leave = out@;
        proof {
            lemma_map_of(client_pairs(self.clients@));
            assert(self.client_map().contains_key(client_id@));
            assert(session_of(sm_mid, client_id@) is None);
            if let Some(s) = session_of(sm0, client_id@) {
                assert(sm_mid.contains_key(session_id@) <==> survives_leave(sm0, client_id@, session_id@));
                assert(member_of(sm0, s, client_id@)) by {
                    let t = choose|t: Seq<char>| #[trigger] member_of(sm0, t, client_id@);
                    assert(member_of(sm0, t, client_id@));
                    lemma_session_of(sm0, t, client_id@);
                }
                if sm_mid.contains_key(session_id@) {
                    if session_id@ != s {
                        assert(!sm0[session_id@].members().contains_key(client_id@)) by {
                            if sm0[session_id@].members().contains_key(client_id@) {
                                assert(member_of(sm0, session_id@, client_id@));
                            }
                        }
                        assert(sm_mid[session_id@].members() =~= sm0[session_id@].members().remove(client_id@));
                        assert(gm_mid.contains_key(session_id@) == gm0.contains_key(session_id@));
                    }
                }
            } else {
                assert(sm_mid == sm0);
                if sm0.contains_key(session_id@) {
                    assert(!member_of(sm0, session_id@, client_id@));
                    assert(sm0[session_id@].members() =~= sm0[session_id@].members().remove(client_id@));
                }
            }
        }
        let ci = match self.find_client(&key) {
            Some(ci) => ci,
            None => return out,
        };
        match self.find_session(&session_id) {
            Some(si) => {
                if self.find_game(&session_id).is_some() {
                    let event = error_event_for("This session's game has already started.");
                    out.push(Outbound { recipient: key, event });
                    assert(self.client_map() =~= cm0.insert(client_id@, self.client_map()[client_id@]));
                    assert(out@.subrange(0, out_leave.len() as int) =~= out_leave);
                    assert(self.session_map() =~= mid.session_map().insert(session_id@, self.session_map()[session_id@]));
                    assert(leave_frames(*old(self), *self, client_id@, session_id@, out@) == out_leave.len());
                    assert(leave_effect(*old(self), mid, client_id@, out@.subrange(0, out_leave.len() as int)));
                    return out;
                }
                self.add_member(ci, si);
                let notice = Notice::Joined { session: session_id.clone(), client: key.clone() };
                let mut more = self.broadcast(si, &notice, None);
                let ghost joined = self.sessions@[si as int];
                proof {
                    self.lemma_entries();
                    assert(self.session_map()[session_id@] == joined);
                    assert(joined.members() =~= sm0[session_id@].members().insert(client_id@, true));
                    assert forall|i: int| 0 <= i < more@.len() implies joined_event(
                        #[trigger] more@[i].event,
                        session_id@,
                        client_id@,
                        joined.member_ids(),
                    ) by {
                        assert(notice_ok(notice, joined, None, more@[i].recipient@, more@[i].event));
                    }
                    assert(recipients(more@).len() == more@.len());
                }
                let ghost more_v = more@;
                proof {
                    if sm0[session_id@].owner@ != client_id@ {
                        if session_of(sm0, client_id@) == Some(session_id@) {
                            assert(sm_mid[session_id@].owner == sm0[session_id@].owner);
                        } else if let Some(t) = session_of(sm0, client_id@) {
                            assert(sm_mid[session_id@] == sm0[session_id@]);
                        }
                    }
                }
                out.append(&mut more);
                proof {
                    let n = out_leave.len() as int;
                    assert forall|i: int| n <= i < out@.len() implies #[trigger] out@[i].recipient@ == recipients(
                        more_v,
                    )[i - n] by {
                        assert(out@[i] == more_v[i - n]);
                    }
                    assert forall|i: int| 0 <= i < n implies left_event(#[trigger] out@[i].event, client_id@) by {
                        assert(out@[i] == out_leave[i]);
                    }
                }
            },
            None => {
                let mut more = self.open_session(ci, session_id);
                out.append(&mut more);
            },
        }
        assert(self.client_map() =~= cm0.insert(client_id@, self.client_map()[client_id@]));
        assert(out@.subrange(0, out_leave.len() as int) =~= out_leave);
        assert(self.session_map() =~= mid.session_map().insert(session_id@, self.session_map()[session_id@]));
        assert(leave_effect(*old(self), mid, client_id@, out@.subrange(0, out_leave.len() as int)));
        assert(leave_frames(*old(self), *self, client_id@, session_id@, out@) == out_leave.len());
        out
    }

    /// Starts a game in the session of client `client_id` when at least two of
    /// its members are active: a 7 by 6 empty board, the members in a random
    /// turn order, turn index 0. Each connected member then hears that the game
    /// started and whose turn it is, each with the board as that member may see
    /// it. With fewer active members the session hears a logic error instead.
    pub fn start_game(&mut self, client_id: &str) -> (out: Vec<Outbound>)
        requires
            old(self).wf(),
        ensures
            final(self).wf(),
            start_effect(*old(self), *final(self), client_id@, out@),
    {
        let key = client_id.to_owned();
        if self.find_client(&key).is_none() {
            return Vec::new();
        }
        let si = match self.find_membership(&key) {
            Some(si) => si,
            None => return Vec::new(),
        };
        let ghost cm0 = self.client_map();
        let ghost sm0 = self.session_map();
        let ghost gm0 = self.game_map();
        let ghost sid = self.sessions@[si as int].id@;
        proof {
            self.lemma_entries();
            assert(sm0[sid] == self.sessions@[si as int]);
        }
        let ghost sess = self.sessions@[si as int];
        let active = self.sessions[si].get_clients_with_active_status(true);
        if active.len() < 2 {
            assert(!two_active(sess.members())) by {
                if two_active(sess.members()) {
                    let (a, b) = choose|a: Seq<char>, b: Seq<char>|
                        a != b && #[trigger] sess.members().contains_key(a) && #[trigger] sess.members().contains_key(b)
                            && sess.members()[a] && sess.members()[b];
                    assert(ids_of(active@).contains(a));
                    assert(ids_of(active@).contains(b));
                    let ia = choose|i: int| 0 <= i < ids_of(active@).len() && ids_of(active@)[i] == a;
                    let ib = choose|i: int| 0 <= i < ids_of(active@).len() && ids_of(active@)[i] == b;
                    assert(ia != ib);
                }
            }
            let notice = Notice::Error { message: "Need at least 2 players to start a game.".to_owned() };
            let out = self.broadcast(si, &notice, None);
            assert forall|i: int| 0 <= i < out@.len() implies error_event(#[trigger] out@[i].event, too_few_text()) by {
                assert(notice_ok(notice, sess, None, out@[i].recipient@, out@[i].event));
            }
            return out;
        }
        assert(two_active(sess.members())) by {
            let a = ids_of(active@)[0];
            let b = ids_of(active@)[1];
            assert(ids_of(active@).contains(a));
            assert(ids_of(active@).contains(b));
        }
        let ids = self.sessions[si].get_client_ids();
        proof {
            lemma_map_of(sess.entries());
            let a = ids_of(active@)[0];
            let b = ids_of(active@)[1];
            assert(ids_of(active@).contains(a));
            assert(ids_of(active@).contains(b));
            let ia = choose|i: int| 0 <= i < sess.entries().len() && #[trigger] sess.entries()[i].0 == a;
            let ib = choose|i: int| 0 <= i < sess.entries().len() && #[trigger] sess.entries()[i].0 == b;
            assert(ia != ib);
            assert(ids@.len() >= 2);
        }
        let order = shuffled(ids);
        let board = create_game_board(BOARD_WIDTH, BOARD_HEIGHT);
        let game = GameState { board, turn_index: 0, player_turn_order: order };
        assert(game.wf());
        let ghost g = game;
        let sid_exec = self.sessions[si].id.clone();
        let ghost gpairs0 = game_pairs(self.games@);
        proof {
            lemma_map_of(gpairs0);
        }
        let gi = match self.find_game(&sid_exec) {
            Some(gi) => {
                proof {
                    lemma_map_of_update(gpairs0, gi as int, g);
                }
                self.games[gi].state = game;
                assert(game_pairs(self.games@) =~= gpairs0.update(gi as int, (gpairs0[gi as int].0, g)));
                gi
            },
            None => {
                proof {
                    lemma_map_of_push(gpairs0, (sid, g));
                }
                let gi = self.games.len();
                self.games.push(GameEntry { session_id: sid_exec, state: game });
                assert(game_pairs(self.games@) =~= gpairs0.push((sid, g)));
                gi
            },
        };
        proof {
            let gm1 = self.game_map();
            assert(gm1 == gm0.insert(sid, g));
            assert forall|x: Seq<char>| #[trigger] gm1.contains_key(x) implies gm1[x].wf() && sm0.contains_key(x) by {
                if x != sid {
                    assert(gm0.contains_key(x));
                }
            }
            assert(maps_ok(cm0, sm0, gm1));
        }
        let gs = &self.games[gi].state;
        let first = gs.get_turn_player();
        let started = Notice::Game { code: ServerEventCode::GameStarted, player: None, redacted: true };
        let mut out = self.broadcast(si, &started, Some(gs));
        let turn = Notice::Game { code: ServerEventCode::TurnStart, player: Some(first), redacted: true };
        let mut more = self.broadcast(si, &turn, Some(gs));
        let ghost out1 = out@;
        let ghost more1 = more@;
        out.append(&mut more);
        proof {
            let heard = audience(sess, cm0);
            let n = heard.len() as int;
            assert(recipients(out1) == heard && recipients(more1) == heard);
            assert(out1.len() == n && more1.len() == n);
            assert forall|i: int| 0 <= i < n implies #[trigger] out@[i].recipient@ == heard[i] && game_event(
                out@[i].event,
                ServerEventCode::GameStarted,
                None,
                g,
                Some(heard[i]),
            ) by {
                assert(out@[i] == out1[i]);
                assert(recipients(out1)[i] == out1[i].recipient@);
                assert(notice_ok(started, sess, Some(g), out1[i].recipient@, out1[i].event));
            }
            assert forall|i: int| 0 <= i < n implies #[trigger] out@[n + i].recipient@ == heard[i] && game_event(
                out@[n + i].event,
                ServerEventCode::TurnStart,
                Some(g.order()[0]),
                g,
                Some(heard[i]),
            ) by {
                assert(out@[n + i] == more1[i]);
                assert(recipients(more1)[i] == more1[i].recipient@);
                assert(notice_ok(turn, sess, Some(g), more1[i].recipient@, more1[i].event));
            }
        }
        out
    }

    /// Plays `column` for client `client_id` in the game of its session. A
    /// client whose turn it is not, or a full or missing column, gets a logic
    /// error and nothing changes. An accepted move tells every connected member
    /// either that the game is won, with the raw board, or whose turn is next,
    /// with the board as that member may see it.
    pub fn play_column(&mut self, client_id: &str, column: usize) -> (out: Vec<Outbound>)
        requires
            old(self).wf(),
        ensures
            final(self).wf(),
            play_effect(*old(self), *final(self), client_id@, column as int, out@),
    {
        let key = client_id.to_owned();
        if self.find_client(&key).is_none() {
            return Vec::new();
        }
        let si = match self.find_membership(&key) {
            Some(si) => si,
            None => return Vec::new(),
        };
        let ghost cm0 = self.client_map();
        let ghost sm0 = self.session_map();
        let ghost gm0 = self.game_map();
        let ghost sid = self.sessions@[si as int].id@;
        proof {
            self.lemma_entries();
            assert(sm0[sid] == self.sessions@[si as int]);
        }
        let sid_exec = self.sessions[si].id.clone();
        let gi = match self.find_game(&sid_exec) {
            Some(gi) => gi,
            None => return Vec::new(),
        };
        let ghost g = self.games@[gi as int].state;
        assert(gm0[sid] == g);
        let players = self.games[gi].state.player_turn_order.len();
        assert(g.order().len() == players);
        let turn_player = self.games[gi].state.get_turn_player();
        if turn_player != key {
            let event = error_event_for("It is not your turn to play.");
            return vec![Outbound { recipient: key, event }];
        }
        let p = match self.games[gi].state.get_player_index(client_id) {
            Some(p) => p,
            None => {
                proof {
                    lemma_first_index_from(g.order(), client_id@, 0);
                }
                return Vec::new();
            },
        };
        proof {
            lemma_first_index_from(g.order(), client_id@, 0);
        }
        let ghost gpairs0 = game_pairs(self.games@);
        let result = self.games[gi].state.play(column, p);
        let ghost g2 = self.games@[gi as int].state;
        proof {
            assert(game_pairs(self.games@) =~= gpairs0.update(gi as int, (gpairs0[gi as int].0, g2)));
            lemma_map_of_update(gpairs0, gi as int, g2);
        }
        match result {
            Err(_) => {
                assert(self.game_map() =~= gm0);
                let event = error_event_for("This column has reached its max.");
                vec![Outbound { recipient: key, event }]
            },
            Ok(won) => {
                proof {
                    let gm1 = self.game_map();
                    assert forall|x: Seq<char>| #[trigger] gm1.contains_key(x) implies gm1[x].wf() && sm0.contains_key(x) by {
                        if x != sid {
                            assert(gm0.contains_key(x));
                        }
                    }
                    assert(maps_ok(cm0, sm0, gm1));
                }
                let gs = &self.games[gi].state;
                let sess = &self.sessions[si];
                if won {
                    let notice = Notice::Game { code: ServerEventCode::GameEnded, player: Some(key), redacted: false };
                    let out = self.broadcast(si, &notice, Some(gs));
                    assert forall|i: int| 0 <= i < out@.len() implies game_event(
                        #[trigger] out@[i].event,
                        ServerEventCode::GameEnded,
                        Some(client_id@),
                        g2,
                        None,
                    ) by {
                        assert(notice_ok(notice, *sess, Some(g2), out@[i].recipient@, out@[i].event));
                    }
                    out
                } else {
                    let next = gs.get_turn_player();
                    let notice = Notice::Game { code: ServerEventCode::TurnStart, player: Some(next), redacted: true };
                    let out = self.broadcast(si, &notice, Some(gs));
                    assert forall|i: int| 0 <= i < out@.len() implies game_event(
                        #[trigger] out@[i].event,
                        ServerEventCode::TurnStart,
                        Some(g2.order()[g2.turn_index as int]),
                        g2,
                        Some(out@[i].recipient@),
                    ) by {
                        assert(notice_ok(notice, *sess, Some(g2), out@[i].recipient@, out@[i].event));
                    }
                    out
                }
            },
        }
    }

    /// Tells client `client_id` its session, that session's members, and the
    /// session's game as the client may see it.
    pub fn session_status(&self, client_id: &str) -> (out: Vec<Outbound>)
        requires
            self.wf(),
        ensures
            status_effect(*self, client_id@, out@),
    {
        let key = client_id.to_owned();
        if self.find_client(&key).is_none() {
            return Vec::new();
        }
        let si = match self.find_membership(&key) {
            Some(si) => si,
            None => return Vec::new(),
        };
        proof {
            self.lemma_entries();
        }
        let sess = &self.sessions[si];
        let ids = sess.get_client_ids();
        let event = match self.find_game(&sess.id) {
            Some(gi) => status_event_for(&sess.id, ids, Some(&self.games[gi].state), client_id),
            None => status_event_for(&sess.id, ids, None, client_id),
        };
        vec![Outbound { recipient: key, event }]
    }

    /// Carries out one decoded command of client `client_id`. A join without a
    /// session code, or a play without a column, changes nothing.
    pub fn handle_event(&mut self, client_id: &str, event: ClientEvent) -> (out: Vec<Outbound>)
        requires
            old(self).wf(),
        ensures
            final(self).wf(),
            ({
                let r0 = *old(self);
                let r1 = *final(self);
                let id = client_id@;
                match event.event_code {
                    ClientEventCode::SessionRequest => r1 == r0 && status_effect(r0, id, out@),
                    ClientEventCode::CreateSession => create_effect(r0, r1, id, None, out@),
                    ClientEventCode::JoinSession => match event.data {
                        Some(d) if d.session_id is Some => join_effect(r0, r1, id, d.session_id->Some_0@, out@),
                        _ => r1 == r0 && out@.len() == 0,
                    },
                    ClientEventCode::LeaveSession => leave_effect(r0, r1, id, out@),
                    ClientEventCode::StartGame => start_effect(r0, r1, id, out@),
                    ClientEventCode::Play => match event.data {
                        Some(d) if d.column is Some => play_effect(r0, r1, id, d.column->Some_0 as int, out@),
                        _ => r1 == r0 && out@.len() == 0,
                    },
                }
            }),
    {
        match event.event_code {
            ClientEventCode::SessionRequest => self.session_status(client_id),
            ClientEventCode::CreateSession => self.create_session(client_id, None),
            ClientEventCode::JoinSession => match event.data {
                Some(d) => match d.session_id {
                    Some(sid) => self.join_session(client_id, sid),
                    None => Vec::new(),
                },
                None => Vec::new(),
            },
            ClientEventCode::LeaveSession => self.leave_session(client_id),
            ClientEventCode::StartGame => self.start_game(client_id),
            ClientEventCode::Play => match event.data {
                Some(d) => match d.column {
                    Some(column) => self.play_column(client_id, column),
                    None => Vec::new(),
                },
                None => Vec::new(),
            },
        }
    }
}

} // verus!
