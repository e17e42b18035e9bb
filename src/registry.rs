//! The shared registry of connected clients, sessions and games.
use crate::assoc::{
    has_key, keys_unique, lemma_map_of, lemma_map_of_push, lemma_map_of_remove, lemma_map_of_update, map_of,
};
use crate::game::{ids_of, GameState};
use crate::protocol::opt_view;
use crate::session::{Client, Session};
use vstd::prelude::*;

verus! {

/// The game attached to a session.
#[derive(Clone)]
pub struct GameEntry {
    pub session_id: String,
    pub state: GameState,
}

/// Connected clients, live sessions and their games.
pub struct Registry {
    pub clients: Vec<Client>,
    pub sessions: Vec<Session>,
    pub games: Vec<GameEntry>,
}

/// Why a connection is refused.
#[derive(Clone, Copy, Debug, PartialEq, Eq, Structural)]
pub enum ConnectError {
    /// A live client already holds this identity.
    DuplicateIdentity,
    /// The claimed identity does not decode to text.
    InvalidIdentity,
}

/// Clients as (identity, session) entries.
pub open spec fn client_pairs(v: Seq<Client>) -> Seq<(Seq<char>, Option<Seq<char>>)> {
    Seq::new(v.len(), |i: int| (v[i].id@, opt_view(v[i].session_id)))
}

/// Sessions as (code, session) entries.
pub open spec fn session_pairs(v: Seq<Session>) -> Seq<(Seq<char>, Session)> {
    Seq::new(v.len(), |i: int| (v[i].id@, v[i]))
}

/// Games as (session code, game) entries.
pub open spec fn game_pairs(v: Seq<GameEntry>) -> Seq<(Seq<char>, GameState)> {
    Seq::new(v.len(), |i: int| (v[i].session_id@, v[i].state))
}

/// `k` is a member of the live session `s`.
pub open spec fn member_of(sm: Map<Seq<char>, Session>, s: Seq<char>, k: Seq<char>) -> bool {
    sm.contains_key(s) && sm[s].members().contains_key(k)
}

/// No identity is a member of two sessions.
pub open spec fn one_session_each(sm: Map<Seq<char>, Session>) -> bool {
    forall|s1: Seq<char>, s2: Seq<char>, k: Seq<char>|
        #[trigger] member_of(sm, s1, k) && #[trigger] member_of(sm, s2, k) ==> s1 == s2
}

/// The session that `k` is a member of, if any.
pub open spec fn session_of(sm: Map<Seq<char>, Session>, k: Seq<char>) -> Option<Seq<char>> {
    if exists|s: Seq<char>| #[trigger] member_of(sm, s, k) {
        Some(choose|s: Seq<char>| #[trigger] member_of(sm, s, k))
    } else {
        None
    }
}

/// Some member of the map is active.
pub open spec fn any_active(m: Map<Seq<char>, bool>) -> bool {
    exists|k: Seq<char>| #[trigger] m.contains_key(k) && m[k]
}

/// `sm2` is `sm` with only session `s` changed, its members to `members`;
/// its owner may have changed.
pub open spec fn session_updated(
    sm: Map<Seq<char>, Session>,
    sm2: Map<Seq<char>, Session>,
    s: Seq<char>,
    members: Map<Seq<char>, bool>,
) -> bool {
    &&& sm.contains_key(s)
    &&& sm2.dom() == sm.dom()
    &&& forall|t: Seq<char>| #[trigger] sm2.contains_key(t) && t != s ==> sm2[t] == sm[t]
    &&& sm2[s].id == sm[s].id
    &&& sm2[s].wf()
    &&& sm2[s].members() == members
}

/// `sm2` is `sm` with only the members of session `s` changed, to `members`.
pub open spec fn members_changed(
    sm: Map<Seq<char>, Session>,
    sm2: Map<Seq<char>, Session>,
    s: Seq<char>,
    members: Map<Seq<char>, bool>,
) -> bool {
    &&& session_updated(sm, sm2, s, members)
    &&& sm2[s].owner == sm[s].owner
}

/// When only the memberships of `id` change, and `id` stays in at most one
/// session, every identity remains in at most one session and every other
/// identity keeps its session.
pub proof fn lemma_membership_change(sm0: Map<Seq<char>, Session>, sm1: Map<Seq<char>, Session>, id: Seq<char>)
    requires
        one_session_each(sm0),
        forall|s: Seq<char>, k: Seq<char>| k != id ==> member_of(sm1, s, k) == member_of(sm0, s, k),
        forall|s1: Seq<char>, s2: Seq<char>| member_of(sm1, s1, id) && member_of(sm1, s2, id) ==> s1 == s2,
    ensures
        one_session_each(sm1),
        forall|k: Seq<char>| k != id ==> #[trigger] session_of(sm1, k) == session_of(sm0, k),
{
    assert forall|s1: Seq<char>, s2: Seq<char>, x: Seq<char>|
        #[trigger] member_of(sm1, s1, x) && #[trigger] member_of(sm1, s2, x) implies s1 == s2 by {
        if x != id {
            assert(member_of(sm0, s1, x) && member_of(sm0, s2, x));
        }
    }
    assert forall|k: Seq<char>| k != id implies #[trigger] session_of(sm1, k) == session_of(sm0, k) by {
        if exists|t: Seq<char>| #[trigger] member_of(sm0, t, k) {
            let t = choose|t: Seq<char>| #[trigger] member_of(sm0, t, k);
            lemma_session_of(sm0, t, k);
            assert(member_of(sm1, t, k));
            lemma_session_of(sm1, t, k);
        } else {
            assert(!exists|t: Seq<char>| #[trigger] member_of(sm1, t, k)) by {
                if exists|t: Seq<char>| #[trigger] member_of(sm1, t, k) {
                    let t = choose|t: Seq<char>| #[trigger] member_of(sm1, t, k);
                    assert(member_of(sm0, t, k));
                }
            }
        }
    }
}

/// The session `s` of `sm` holds `k`, and no other session does.
pub proof fn lemma_session_of(sm: Map<Seq<char>, Session>, s: Seq<char>, k: Seq<char>)
    requires
        one_session_each(sm),
        member_of(sm, s, k),
    ensures
        session_of(sm, k) == Some(s),
{
    let t = choose|t: Seq<char>| #[trigger] member_of(sm, t, k);
    assert(member_of(sm, t, k) && member_of(sm, s, k));
}

/// Sessions with the same memberships pair identities with the same sessions.
pub proof fn lemma_same_membership(sm0: Map<Seq<char>, Session>, sm1: Map<Seq<char>, Session>)
    requires
        one_session_each(sm0),
        forall|s: Seq<char>, k: Seq<char>| member_of(sm1, s, k) == member_of(sm0, s, k),
    ensures
        one_session_each(sm1),
        forall|k: Seq<char>| #[trigger] session_of(sm1, k) == session_of(sm0, k),
{
    assert forall|k: Seq<char>| #[trigger] session_of(sm1, k) == session_of(sm0, k) by {
        if exists|t: Seq<char>| #[trigger] member_of(sm0, t, k) {
            let t = choose|t: Seq<char>| #[trigger] member_of(sm0, t, k);
            lemma_session_of(sm0, t, k);
            assert(member_of(sm1, t, k));
            assert forall|s1: Seq<char>, s2: Seq<char>, x: Seq<char>|
                #[trigger] member_of(sm1, s1, x) && #[trigger] member_of(sm1, s2, x) implies s1 == s2 by {
                assert(member_of(sm0, s1, x) && member_of(sm0, s2, x));
            }
            lemma_session_of(sm1, t, k);
        } else {
            assert(!exists|t: Seq<char>| #[trigger] member_of(sm1, t, k)) by {
                if exists|t: Seq<char>| #[trigger] member_of(sm1, t, k) {
                    let t = choose|t: Seq<char>| #[trigger] member_of(sm1, t, k);
                    assert(member_of(sm0, t, k));
                }
            }
        }
    }
    assert forall|s1: Seq<char>, s2: Seq<char>, x: Seq<char>|
        #[trigger] member_of(sm1, s1, x) && #[trigger] member_of(sm1, s2, x) implies s1 == s2 by {
        assert(member_of(sm0, s1, x) && member_of(sm0, s2, x));
    }
}

/// Removing a session keeps every other identity's session.
pub proof fn lemma_remove_session(sm0: Map<Seq<char>, Session>, s: Seq<char>)
    requires
        one_session_each(sm0),
    ensures
        one_session_each(sm0.remove(s)),
        forall|k: Seq<char>| #[trigger] session_of(sm0, k) != Some(s) ==> session_of(sm0.remove(s), k) == session_of(sm0, k),
        forall|k: Seq<char>| #[trigger] session_of(sm0, k) == Some(s) ==> session_of(sm0.remove(s), k) is None,
{
    let sm1 = sm0.remove(s);
    assert forall|s1: Seq<char>, s2: Seq<char>, x: Seq<char>|
        #[trigger] member_of(sm1, s1, x) && #[trigger] member_of(sm1, s2, x) implies s1 == s2 by {
        assert(member_of(sm0, s1, x) && member_of(sm0, s2, x));
    }
    assert forall|k: Seq<char>| #[trigger] session_of(sm0, k) != Some(s) implies session_of(sm1, k) == session_of(sm0, k) by {
        if exists|t: Seq<char>| #[trigger] member_of(sm0, t, k) {
            let t = choose|t: Seq<char>| #[trigger] member_of(sm0, t, k);
            lemma_session_of(sm0, t, k);
            assert(member_of(sm1, t, k));
            lemma_session_of(sm1, t, k);
        } else {
            assert(!exists|t: Seq<char>| #[trigger] member_of(sm1, t, k)) by {
                if exists|t: Seq<char>| #[trigger] member_of(sm1, t, k) {
                    let t = choose|t: Seq<char>| #[trigger] member_of(sm1, t, k);
                    assert(member_of(sm0, t, k));
                }
            }
        }
    }
    assert forall|k: Seq<char>| #[trigger] session_of(sm0, k) == Some(s) implies session_of(sm1, k) is None by {
        let t = choose|t: Seq<char>| #[trigger] member_of(sm0, t, k);
        assert(member_of(sm0, t, k));
        lemma_session_of(sm0, t, k);
        if exists|u: Seq<char>| #[trigger] member_of(sm1, u, k) {
            let u = choose|u: Seq<char>| #[trigger] member_of(sm1, u, k);
            assert(member_of(sm0, u, k));
        }
    }
}

/// The registry's invariant over its maps of clients, sessions and games:
/// sessions are well formed, each has an active member, and each owner is a
/// member; games are well
/// formed and belong to live sessions; an identity is a member of at most one
/// session; a client's session is the one it is a member of; a member is
/// active exactly when it is connected.
pub open spec fn maps_ok(
    cm: Map<Seq<char>, Option<Seq<char>>>,
    sm: Map<Seq<char>, Session>,
    gm: Map<Seq<char>, GameState>,
) -> bool {
    &&& forall|s: Seq<char>|
        #[trigger] sm.contains_key(s) ==> sm[s].wf() && sm[s].id@ == s && any_active(sm[s].members())
            && sm[s].members().contains_key(sm[s].owner@)
    &&& forall|g: Seq<char>| #[trigger] gm.contains_key(g) ==> gm[g].wf() && sm.contains_key(g)
    &&& one_session_each(sm)
    &&& forall|c: Seq<char>| #[trigger] cm.contains_key(c) ==> cm[c] == session_of(sm, c)
    &&& forall|s: Seq<char>, k: Seq<char>| #[trigger]
        member_of(sm, s, k) ==> (sm[s].members()[k] <==> cm.contains_key(k))
}

/// What `connect_decoded` does for identity `id`.
pub open spec fn connect_effect(r0: Registry, r1: Registry, id: Seq<char>, r: Result<(), ConnectError>) -> bool {
    &&& (r0.client_map().contains_key(id) ==> r == Err::<(), ConnectError>(ConnectError::DuplicateIdentity) && r1 == r0)
    &&& (!r0.client_map().contains_key(id) ==> {
        &&& r is Ok
        &&& r1.client_map() == r0.client_map().insert(
            id,
            session_of(r0.session_map(), id),
        )
        &&& r1.game_map() == r0.game_map()
        &&& match session_of(r0.session_map(), id) {
            Some(s) => members_changed(
                r0.session_map(),
                r1.session_map(),
                s,
                r0.session_map()[s].members().insert(id, true),
            ),
            None => r1.session_map() == r0.session_map(),
        }
    })
}

/// What `urlencoding::decode` makes of a text: the percent-decoded text, or
/// `None` where the decoded bytes are not UTF-8.
pub uninterp spec fn url_decoded(s: Seq<char>) -> Option<Seq<char>>;

/// Relies on `urlencoding::decode`: it percent-decodes the text and fails
/// where the result is not UTF-8; a text without `%` comes back unchanged.
#[verifier::external_body]
fn decode_identity(raw: &str) -> (r: Option<String>)
    ensures
        opt_view(r) == url_decoded(raw@),
        !raw@.contains('%') ==> opt_view(r) == Some(raw@),
{
    match urlencoding::decode(raw) {
        Ok(s) => Some(s.into_owned()),
        Err(_) => None,
    }
}

/// An identity is a member of at most one session at any instant: every
/// registry that `new` makes and the commands keep is well formed, and no
/// well-formed registry has an identity in two sessions.
pub proof fn lemma_one_session_per_client(r: Registry, k: Seq<char>, s1: Seq<char>, s2: Seq<char>)
    requires
        r.wf(),
        member_of(r.session_map(), s1, k),
        member_of(r.session_map(), s2, k),
    ensures
        s1 == s2,
{
}

impl Registry {
    /// Each connected client's identity mapped to its session code, if any.
    pub open spec fn client_map(&self) -> Map<Seq<char>, Option<Seq<char>>> {
        map_of(client_pairs(self.clients@))
    }

    /// Each live session's code mapped to the session.
    pub open spec fn session_map(&self) -> Map<Seq<char>, Session> {
        map_of(session_pairs(self.sessions@))
    }

    /// Each session code with a game mapped to that game.
    pub open spec fn game_map(&self) -> Map<Seq<char>, GameState> {
        map_of(game_pairs(self.games@))
    }

    /// The registry's invariant: keys are unique, and `maps_ok` holds of its maps.
    pub open spec fn wf(&self) -> bool {
        &&& keys_unique(client_pairs(self.clients@))
        &&& keys_unique(session_pairs(self.sessions@))
        &&& keys_unique(game_pairs(self.games@))
        &&& maps_ok(self.client_map(), self.session_map(), self.game_map())
    }

    /// An empty registry.
    pub fn new() -> (r: Registry)
        ensures
            r.wf(),
            r.client_map() == Map::<Seq<char>, Option<Seq<char>>>::empty(),
            r.session_map() == Map::<Seq<char>, Session>::empty(),
            r.game_map() == Map::<Seq<char>, GameState>::empty(),
    {
        let r = Registry { clients: Vec::new(), sessions: Vec::new(), games: Vec::new() };
        assert(client_pairs(r.clients@) =~= Seq::empty());
        assert(session_pairs(r.sessions@) =~= Seq::empty());
        assert(game_pairs(r.games@) =~= Seq::empty());
        r
    }

    /// Facts of the invariant unfolded for the entries at their positions.
    pub proof fn lemma_entries(&self)
        requires
            self.wf(),
        ensures
            forall|i: int|
                0 <= i < self.sessions@.len() ==> #[trigger] self.session_map()[self.sessions@[i].id@]
                    == self.sessions@[i] && self.session_map().contains_key(self.sessions@[i].id@)
                    && self.sessions@[i].wf(),
            forall|i: int|
                0 <= i < self.games@.len() ==> #[trigger] self.game_map()[self.games@[i].session_id@]
                    == self.games@[i].state && self.game_map().contains_key(self.games@[i].session_id@)
                    && self.games@[i].state.wf(),
            forall|i: int|
                0 <= i < self.clients@.len() ==> #[trigger] self.client_map()[self.clients@[i].id@]
                    == opt_view(self.clients@[i].session_id) && self.client_map().contains_key(
                    self.clients@[i].id@,
                ),
            forall|k: Seq<char>| #[trigger]
                self.session_map().contains_key(k) <==> has_key(session_pairs(self.sessions@), k),
            forall|k: Seq<char>| #[trigger]
                self.game_map().contains_key(k) <==> has_key(game_pairs(self.games@), k),
            forall|k: Seq<char>| #[trigger]
                self.client_map().contains_key(k) <==> has_key(client_pairs(self.clients@), k),
    {
        lemma_map_of(client_pairs(self.clients@));
        lemma_map_of(session_pairs(self.sessions@));
        lemma_map_of(game_pairs(self.games@));
        assert forall|i: int| 0 <= i < self.sessions@.len() implies #[trigger] self.session_map()[self.sessions@[i].id@]
            == self.sessions@[i] && self.session_map().contains_key(self.sessions@[i].id@)
            && self.sessions@[i].wf() by {
            assert(session_pairs(self.sessions@)[i].0 == self.sessions@[i].id@);
        }
        assert forall|i: int| 0 <= i < self.games@.len() implies #[trigger] self.game_map()[self.games@[i].session_id@]
            == self.games@[i].state && self.game_map().contains_key(self.games@[i].session_id@)
            && self.games@[i].state.wf() by {
            assert(game_pairs(self.games@)[i].0 == self.games@[i].session_id@);
        }
        assert forall|i: int| 0 <= i < self.clients@.len() implies #[trigger] self.client_map()[self.clients@[i].id@]
            == opt_view(self.clients@[i].session_id) && self.client_map().contains_key(self.clients@[i].id@) by {
            assert(client_pairs(self.clients@)[i].0 == self.clients@[i].id@);
        }
    }

    /// Position of the connected client `id`, if any.
    pub fn find_client(&self, id: &String) -> (r: Option<usize>)
        requires
            keys_unique(client_pairs(self.clients@)),
        ensures
            r matches Some(i) ==> i < self.clients@.len() && self.clients@[i as int].id@ == id@,
            r is None <==> !self.client_map().contains_key(id@),
    {
        proof {
            lemma_map_of(client_pairs(self.clients@));
        }
        let mut i: usize = 0;
        while i < self.clients.len()
            invariant
                keys_unique(client_pairs(self.clients@)),
                i <= self.clients@.len(),
                forall|j: int| 0 <= j < i ==> #[trigger] client_pairs(self.clients@)[j].0 != id@,
            decreases self.clients.len() - i,
        {
            if self.clients[i].id == *id {
                proof {
                    lemma_map_of(client_pairs(self.clients@));
                    assert(client_pairs(self.clients@)[i as int].0 == id@);
                }
                return Some(i);
            }
            i = i + 1;
        }
        None
    }

    /// Position of the live session `id`, if any.
    pub fn find_session(&self, id: &String) -> (r: Option<usize>)
        requires
            keys_unique(session_pairs(self.sessions@)),
        ensures
            r matches Some(i) ==> i < self.sessions@.len() && self.sessions@[i as int].id@ == id@,
            r is None <==> !self.session_map().contains_key(id@),
    {
        proof {
            lemma_map_of(session_pairs(self.sessions@));
        }
        let mut i: usize = 0;
        while i < self.sessions.len()
            invariant
                keys_unique(session_pairs(self.sessions@)),
                i <= self.sessions@.len(),
                forall|j: int| 0 <= j < i ==> #[trigger] session_pairs(self.sessions@)[j].0 != id@,
            decreases self.sessions.len() - i,
        {
            if self.sessions[i].id == *id {
                proof {
                    lemma_map_of(session_pairs(self.sessions@));
                    assert(session_pairs(self.sessions@)[i as int].0 == id@);
                }
                return Some(i);
            }
            i = i + 1;
        }
        None
    }

    /// Position of the game of session `id`, if it has one.
    pub fn find_game(&self, id: &String) -> (r: Option<usize>)
        requires
            keys_unique(game_pairs(self.games@)),
        ensures
            r matches Some(i) ==> i < self.games@.len() && self.games@[i as int].session_id@ == id@,
            r is None <==> !self.game_map().contains_key(id@),
    {
        proof {
            lemma_map_of(game_pairs(self.games@));
        }
        let mut i: usize = 0;
        while i < self.games.len()
            invariant
                keys_unique(game_pairs(self.games@)),
                i <= self.games@.len(),
                forall|j: int| 0 <= j < i ==> #[trigger] game_pairs(self.games@)[j].0 != id@,
            decreases self.games.len() - i,
        {
            if self.games[i].session_id == *id {
                proof {
                    lemma_map_of(game_pairs(self.games@));
                    assert(game_pairs(self.games@)[i as int].0 == id@);
                }
                return Some(i);
            }
            i = i + 1;
        }
        None
    }

    /// Position of the session that `id` is a member of, if any.
    pub fn find_membership(&self, id: &String) -> (r: Option<usize>)
        requires
            self.wf(),
        ensures
            r matches Some(i) ==> i < self.sessions@.len() && session_of(self.session_map(), id@) == Some(
                self.sessions@[i as int].id@,
            ),
            r is None <==> session_of(self.session_map(), id@) is None,
    {
        proof {
            self.lemma_entries();
        }
        let mut i: usize = 0;
        while i < self.sessions.len()
            invariant
                self.wf(),
                i <= self.sessions@.len(),
                forall|j: int| 0 <= j < i ==> !#[trigger] self.sessions@[j].members().contains_key(id@),
            decreases self.sessions.len() - i,
        {
            proof {
                self.lemma_entries();
                assert(self.session_map()[self.sessions@[i as int].id@] == self.sessions@[i as int]);
            }
            if self.sessions[i].contains_client(id.as_str()) {
                proof {
                    lemma_session_of(self.session_map(), self.sessions@[i as int].id@, id@);
                }
                return Some(i);
            }
            i = i + 1;
        }
        assert forall|s: Seq<char>| !#[trigger] member_of(self.session_map(), s, id@) by {
            if member_of(self.session_map(), s, id@) {
                let j = choose|j: int| 0 <= j < session_pairs(self.sessions@).len() && #[trigger] session_pairs(
                    self.sessions@,
                )[j].0 == s;
                assert(self.sessions@[j].members().contains_key(id@));
            }
        }
        None
    }

    /// Registers a newly connected client under `id` and marks it active in the
    /// session it is still a member of, if any. A second live client with the
    /// same identity is refused and nothing changes.
    pub fn connect_decoded(&mut self, id: String) -> (r: Result<(), ConnectError>)
        requires
            old(self).wf(),
        ensures
            final(self).wf(),
            connect_effect(*old(self), *final(self), id@, r),

    {
        if self.find_client(&id).is_some() {
            return Err(ConnectError::DuplicateIdentity);
        }
        let ghost cm0 = self.client_map();
        let ghost sm0 = self.session_map();
        let ghost gm0 = self.game_map();
        proof {
            self.lemma_entries();
        }
        let session_id = match self.find_membership(&id) {
            Some(i) => {
                let ghost sid = self.sessions@[i as int].id@;
                let ghost pairs0 = session_pairs(self.sessions@);
                proof {
                    assert(sm0[sid] == self.sessions@[i as int]);
                    lemma_map_of_update(pairs0, i as int, sm0[sid]);
                }
                self.sessions[i].set_client_active_status(id.as_str(), true);
                let ghost new_s = self.sessions@[i as int];
                proof {
                    assert(session_pairs(self.sessions@) =~= pairs0.update(i as int, (pairs0[i as int].0, new_s)));
                    lemma_map_of_update(pairs0, i as int, new_s);
                    lemma_session_of(sm0, sid, id@);
                }
                Some(self.sessions[i].id.clone())
            },
            None => None,
        };
        let ghost sm1 = self.session_map();
        assert(self.games == old(self).games);
        proof {
            if session_id is Some {
                let sid = session_of(sm0, id@)->Some_0;
                assert(sm1.dom() =~= sm0.dom());
                assert forall|s: Seq<char>, k: Seq<char>| member_of(sm1, s, k) == member_of(sm0, s, k) by {
                    if s == sid {
                        assert(sm1[s].members().dom() =~= sm0[s].members().dom());
                    }
                }
            } else {
                assert(sm1 == sm0);
            }
            lemma_same_membership(sm0, sm1);
        }
        let ghost cpairs0 = client_pairs(self.clients@);
        let c = Client { id, session_id };
        proof {
            lemma_map_of_push(cpairs0, (c.id@, opt_view(c.session_id)));
        }
        self.clients.push(c);
        assert(client_pairs(self.clients@) =~= cpairs0.push((c.id@, opt_view(c.session_id))));
        proof {
            let cm1 = self.client_map();
            assert(cm1 == cm0.insert(id@, session_of(sm0, id@)));
            assert forall|k: Seq<char>| #[trigger] cm1.contains_key(k) implies cm1[k] == session_of(sm1, k) by {
                if k != c.id@ {
                    assert(cm0.contains_key(k));
                }
            }
            assert forall|s: Seq<char>, k: Seq<char>| #[trigger] member_of(sm1, s, k) implies (sm1[s].members()[k]
                <==> cm1.contains_key(k)) by {
                assert(member_of(sm0, s, k));
                if k == id@ {
                    lemma_session_of(sm0, s, k);
                }
            }
            assert(self.game_map() == gm0);
            assert forall|t: Seq<char>| #[trigger] sm1.contains_key(t) implies sm1[t].wf() && sm1[t].id@ == t by {
                assert(sm0.contains_key(t));
            }
        }
        assert(keys_unique(client_pairs(self.clients@)));
        assert(keys_unique(session_pairs(self.sessions@)));
        assert(keys_unique(game_pairs(self.games@)));
        assert(one_session_each(sm1));
        assert(sm1.dom() =~= sm0.dom());
        assert(forall|g: Seq<char>| #[trigger] gm0.contains_key(g) ==> gm0[g].wf() && sm1.contains_key(g));
        Ok(())
    }

    /// Forgets the connected client `id`, marks it inactive in its session,
    /// and removes that session with its game when no active member is left.
    pub fn disconnect(&mut self, id: &str)
        requires
            old(self).wf(),
        ensures
            final(self).wf(),
            !old(self).client_map().contains_key(id@) ==> *final(self) == *old(self),
            old(self).client_map().contains_key(id@) ==> {
                &&& final(self).client_map() == old(self).client_map().remove(id@)
                &&& match session_of(old(self).session_map(), id@) {
                    Some(s) => {
                        let rest = old(self).session_map()[s].members().insert(id@, false);
                        if any_active(rest) {
                            &&& members_changed(old(self).session_map(), final(self).session_map(), s, rest)
                            &&& final(self).game_map() == old(self).game_map()
                        } else {
                            &&& final(self).session_map() == old(self).session_map().remove(s)
                            &&& final(self).game_map() == old(self).game_map().remove(s)
                        }
                    },
                    None => {
                        &&& final(self).session_map() == old(self).session_map()
                        &&& final(self).game_map() == old(self).game_map()
                    },
                }
            },
    {
        let key = id.to_owned();
        let ci = match self.find_client(&key) {
            Some(ci) => ci,
            None => return ,
        };
        let ghost cm0 = self.client_map();
        let ghost sm0 = self.session_map();
        let ghost gm0 = self.game_map();
        let mi = self.find_membership(&key);
        proof {
            self.lemma_entries();
        }
        let ghost cpairs0 = client_pairs(self.clients@);
        proof {
            lemma_map_of_remove(cpairs0, ci as int);
        }
        self.clients.remove(ci);
        assert(client_pairs(self.clients@) =~= cpairs0.remove(ci as int));
        let ghost cm1 = self.client_map();
        match mi {
            None => {
                assert forall|c: Seq<char>| #[trigger] cm1.contains_key(c) implies cm1[c] == session_of(sm0, c) by {
                    assert(cm0.contains_key(c));
                }
            },
            Some(si) => {
                let ghost sid = self.sessions@[si as int].id@;
                let ghost pairs0 = session_pairs(self.sessions@);
                proof {
                    assert(sm0[sid] == self.sessions@[si as int]);
                    lemma_session_of(sm0, sid, id@);
                }
                self.sessions[si].set_client_active_status(id, false);
                let ghost new_s = self.sessions@[si as int];
                proof {
                    assert(session_pairs(self.sessions@) =~= pairs0.update(si as int, (pairs0[si as int].0, new_s)));
                    lemma_map_of_update(pairs0, si as int, new_s);
                }
                let ghost sm1 = self.session_map();
                proof {
                    assert(sm1.dom() =~= sm0.dom());
                    assert forall|s: Seq<char>, k: Seq<char>| member_of(sm1, s, k) == member_of(sm0, s, k) by {
                        if s == sid {
                            assert(sm1[s].members().dom() =~= sm0[s].members().dom());
                        }
                    }
                    lemma_same_membership(sm0, sm1);
                    assert forall|t: Seq<char>, k: Seq<char>| #[trigger] member_of(sm1, t, k) implies (
                    sm1[t].members()[k] <==> cm1.contains_key(k)) by {
                        assert(member_of(sm0, t, k));
                        if k == id@ {
                            lemma_session_of(sm0, t, k);
                        }
                    }
                    assert forall|c: Seq<char>| #[trigger] cm1.contains_key(c) implies cm1[c] == session_of(sm1, c) by {
                        assert(cm0.contains_key(c));
                    }
                    assert forall|t: Seq<char>| #[trigger] sm1.contains_key(t) implies sm1[t].wf() && sm1[t].id@ == t by {
                        assert(sm0.contains_key(t));
                    }
                }
                let active = self.sessions[si].get_clients_with_active_status(true);
                if active.len() == 0 {
                    assert(!any_active(new_s.members())) by {
                        if any_active(new_s.members()) {
                            let k = choose|k: Seq<char>| #[trigger] new_s.members().contains_key(k) && new_s.members()[k];
                            assert(ids_of(active@).contains(k));
                        }
                    }
                    let sid_exec = self.sessions[si].id.clone();
                    self.cleanup_session(sid_exec.as_str());
                    proof {
                        let sm2 = self.session_map();
                        lemma_remove_session(sm1, sid);
                        assert forall|c: Seq<char>| #[trigger] cm1.contains_key(c) implies cm1[c] == session_of(sm2, c) by {
                            if session_of(sm1, c) == Some(sid) {
                                assert(member_of(sm1, sid, c)) by {
                                    let t = choose|t: Seq<char>| #[trigger] member_of(sm1, t, c);
                                    assert(member_of(sm1, t, c));
                                    lemma_session_of(sm1, t, c);
                                }
                                assert(new_s.members().contains_key(c) && new_s.members()[c]);
                            }
                        }
                        assert forall|t: Seq<char>, k: Seq<char>| #[trigger] member_of(sm2, t, k) implies (
                        sm2[t].members()[k] <==> cm1.contains_key(k)) by {
                            assert(member_of(sm1, t, k));
                        }
                        assert forall|g: Seq<char>| #[trigger] self.game_map().contains_key(g) implies self.game_map()[g].wf()
                            && sm2.contains_key(g) by {
                            assert(gm0.contains_key(g));
                        }
                    }
                } else {
                    assert(any_active(new_s.members())) by {
                        assert(ids_of(active@).contains(ids_of(active@)[0]));
                    }
                    assert(sm1.dom() =~= sm0.dom());
                }
            },
        }
    }

    /// Removes the session `session_id` and the game attached to it, if any.
    pub fn cleanup_session(&mut self, session_id: &str)
        requires
            keys_unique(session_pairs(old(self).sessions@)),
            keys_unique(game_pairs(old(self).games@)),
        ensures
            keys_unique(session_pairs(final(self).sessions@)),
            keys_unique(game_pairs(final(self).games@)),
            final(self).clients == old(self).clients,
            final(self).session_map() == old(self).session_map().remove(session_id@),
            final(self).game_map() == old(self).game_map().remove(session_id@),
    {
        let key = session_id.to_owned();
        proof {
            lemma_map_of(session_pairs(self.sessions@));
            lemma_map_of(game_pairs(self.games@));
        }
        match self.find_session(&key) {
            Some(si) => {
                let ghost pairs0 = session_pairs(self.sessions@);
                proof {
                    lemma_map_of_remove(pairs0, si as int);
                }
                self.sessions.remove(si);
                assert(session_pairs(self.sessions@) =~= pairs0.remove(si as int));
            },
            None => {
                assert(self.session_map() =~= self.session_map().remove(session_id@));
            },
        }
        match self.find_game(&key) {
            Some(gi) => {
                let ghost pairs0 = game_pairs(self.games@);
                proof {
                    lemma_map_of_remove(pairs0, gi as int);
                }
                self.games.remove(gi);
                assert(game_pairs(self.games@) =~= pairs0.remove(gi as int));
            },
            None => {
                assert(self.game_map() =~= self.game_map().remove(session_id@));
            },
        }
    }

    /// Registers a client that connected under the percent-encoded identity
    /// `raw_id` and returns the decoded identity. An identity that does not
    /// decode, or that a live client holds, is refused and nothing changes.
    pub fn connect(&mut self, raw_id: &str) -> (r: Result<String, ConnectError>)
        requires
            old(self).wf(),
        ensures
            final(self).wf(),
            url_decoded(raw_id@) is None ==> r == Err::<String, ConnectError>(ConnectError::InvalidIdentity)
                && *final(self) == *old(self),
            url_decoded(raw_id@) matches Some(id) ==> {
                let unit = match r {
                    Ok(_) => Ok(()),
                    Err(e) => Err(e),
                };
                &&& connect_effect(*old(self), *final(self), id, unit)
                &&& r matches Ok(s) ==> s@ == id
            },
    {
        let id = match decode_identity(raw_id) {
            Some(id) => id,
            None => return Err(ConnectError::InvalidIdentity),
        };
        let result = id.clone();
        match self.connect_decoded(id) {
            Ok(()) => Ok(result),
            Err(e) => Err(e),
        }
    }

    /// The session of the connected client `client_id`, if it is in one.
    pub fn get_client_session_id(&self, client_id: &str) -> (r: Option<String>)
        requires
            self.wf(),
        ensures
            self.client_map().contains_key(client_id@) ==> opt_view(r) == self.client_map()[client_id@],
            !self.client_map().contains_key(client_id@) ==> r is None,
    {
        let key = client_id.to_owned();
        proof {
            self.lemma_entries();
        }
        match self.find_client(&key) {
            Some(ci) => match &self.clients[ci].session_id {
                Some(s) => Some(s.clone()),
                None => None,
            },
            None => None,
        }
    }

    /// Whether a client could connect now under the percent-encoded identity
    /// `raw_id`, without registering it: the decoded identity, or the reason
    /// `connect` would refuse it.
    pub fn claimable(&self, raw_id: &str) -> (r: Result<String, ConnectError>)
        requires
            self.wf(),
        ensures
            url_decoded(raw_id@) is None ==> r == Err::<String, ConnectError>(ConnectError::InvalidIdentity),
            url_decoded(raw_id@) matches Some(id) ==> {
                &&& self.client_map().contains_key(id) ==> r == Err::<String, ConnectError>(
                    ConnectError::DuplicateIdentity,
                )
                &&& !self.client_map().contains_key(id) ==> (r matches Ok(s) && s@ == id)
            },
    {
        let id = match decode_identity(raw_id) {
            Some(id) => id,
            None => return Err(ConnectError::InvalidIdentity),
        };
        if self.find_client(&id).is_some() {
            Err(ConnectError::DuplicateIdentity)
        } else {
            Ok(id)
        }
    }
}

} // verus!
