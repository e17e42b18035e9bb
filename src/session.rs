//! Sessions: rooms of members, each member active or not, with an owner.
use crate::assoc::{
    has_key, keys_unique, lemma_map_of, lemma_map_of_push, lemma_map_of_remove, lemma_map_of_update, map_of,
};
use crate::game::ids_of;
use vstd::prelude::*;

verus! {

/// A connected client and the session it belongs to, if any.
#[derive(Clone, Debug)]
pub struct Client {
    pub id: String,
    pub session_id: Option<String>,
}

/// One member of a session and whether it is connected.
#[derive(Clone, Debug)]
pub struct Member {
    pub id: String,
    pub active: bool,
}

/// A room: its code, its owner, and its members in order of arrival.
#[derive(Clone, Debug)]
pub struct Session {
    pub id: String,
    pub owner: String,
    pub client_statuses: Vec<Member>,
}

/// Members as (identity, active) entries.
pub open spec fn member_pairs(v: Seq<Member>) -> Seq<(Seq<char>, bool)> {
    Seq::new(v.len(), |i: int| (v[i].id@, v[i].active))
}

impl Session {
    /// The members as (identity, active) entries, in order of arrival.
    pub open spec fn entries(&self) -> Seq<(Seq<char>, bool)> {
        member_pairs(self.client_statuses@)
    }

    /// Each member's identity mapped to whether it is active.
    pub open spec fn members(&self) -> Map<Seq<char>, bool> {
        map_of(self.entries())
    }

    /// The member identities, in order of arrival.
    pub open spec fn member_ids(&self) -> Seq<Seq<char>> {
        Seq::new(self.client_statuses@.len(), |i: int| self.client_statuses@[i].id@)
    }

    /// The member identities as strings, in order of arrival.
    pub open spec fn member_strings(&self) -> Seq<String> {
        Seq::new(self.client_statuses@.len(), |i: int| self.client_statuses@[i].id)
    }

    /// No identity is listed twice.
    pub open spec fn wf(&self) -> bool {
        keys_unique(self.entries())
    }

    /// A session whose only member is `owner`, active.
    pub fn new(id: String, owner: String) -> (s: Session)
        ensures
            s.wf(),
            s.id@ == id@,
            s.owner@ == owner@,
            s.members() == Map::<Seq<char>, bool>::empty().insert(owner@, true),
    {
        let mut members: Vec<Member> = Vec::new();
        let first = Member { id: owner.clone(), active: true };
        proof {
            lemma_map_of_push(member_pairs(members@), (owner@, true));
            assert(member_pairs(members@.push(first)) =~= member_pairs(members@).push((owner@, true)));
        }
        members.push(first);
        Session { id, owner, client_statuses: members }
    }

    /// Position of the member `id`, if present.
    fn find_member(&self, id: &String) -> (r: Option<usize>)
        ensures
            r matches Some(i) ==> i < self.entries().len() && self.entries()[i as int].0 == id@,
            r is None ==> !has_key(self.entries(), id@),
    {
        let mut i: usize = 0;
        while i < self.client_statuses.len()
            invariant
                i <= self.client_statuses@.len(),
                forall|j: int| 0 <= j < i ==> #[trigger] self.entries()[j].0 != id@,
            decreases self.client_statuses.len() - i,
        {
            if self.client_statuses[i].id == *id {
                return Some(i);
            }
            i = i + 1;
        }
        None
    }

    /// Number of members, active or not.
    pub fn get_num_clients(&self) -> (n: usize)
        requires
            self.wf(),
        ensures
            n == self.members().dom().len(),
    {
        proof {
            lemma_map_of(self.entries());
        }
        self.client_statuses.len()
    }

    /// Whether `id` is a member.
    pub fn contains_client(&self, id: &str) -> (r: bool)
        requires
            self.wf(),
        ensures
            r == self.members().contains_key(id@),
    {
        proof {
            lemma_map_of(self.entries());
        }
        let key = id.to_owned();
        self.find_member(&key).is_some()
    }

    /// The member identities, in order of arrival.
    pub fn get_client_ids(&self) -> (ids: Vec<String>)
        ensures
            ids@ == self.member_strings(),
            ids_of(ids@) == self.member_ids(),
    {
        let mut ids: Vec<String> = Vec::new();
        let mut i: usize = 0;
        while i < self.client_statuses.len()
            invariant
                i <= self.client_statuses@.len(),
                ids_of(ids@) == self.member_ids().subrange(0, i as int),
                ids@ == self.member_strings().subrange(0, i as int),
            decreases self.client_statuses.len() - i,
        {
            let ghost before = ids_of(ids@);
            let id = self.client_statuses[i].id.clone();
            ids.push(id);
            assert(ids_of(ids@) =~= before.push(self.member_ids()[i as int]));
            i = i + 1;
            assert(ids_of(ids@) =~= self.member_ids().subrange(0, i as int));
            assert(ids@ =~= self.member_strings().subrange(0, i as int));
        }
        assert(ids_of(ids@) =~= self.member_ids());
        assert(ids@ =~= self.member_strings());
        ids
    }

    /// Removes the member `id`, if present.
    pub fn remove_client(&mut self, id: &str)
        requires
            old(self).wf(),
        ensures
            final(self).wf(),
            final(self).id == old(self).id,
            final(self).owner == old(self).owner,
            final(self).members() == old(self).members().remove(id@),
    {
        let key = id.to_owned();
        proof {
            lemma_map_of(self.entries());
        }
        match self.find_member(&key) {
            Some(i) => {
                let ghost before = self.entries();
                proof {
                    lemma_map_of_remove(before, i as int);
                }
                self.client_statuses.remove(i);
                assert(self.entries() =~= before.remove(i as int));
            },
            None => {
                assert(self.members() =~= self.members().remove(id@));
            },
        }
    }

    /// Adds `id` as a member with the given status, or sets the status of
    /// the member `id` already present.
    pub fn insert_client(&mut self, id: &str, is_active: bool)
        requires
            old(self).wf(),
        ensures
            final(self).wf(),
            final(self).id == old(self).id,
            final(self).owner == old(self).owner,
            final(self).members() == old(self).members().insert(id@, is_active),
    {
        let key = id.to_owned();
        let ghost before = self.entries();
        match self.find_member(&key) {
            Some(i) => {
                proof {
                    lemma_map_of_update(before, i as int, is_active);
                }
                self.client_statuses[i].active = is_active;
                assert(self.entries() =~= before.update(i as int, (before[i as int].0, is_active)));
            },
            None => {
                proof {
                    lemma_map_of_push(before, (id@, is_active));
                }
                self.client_statuses.push(Member { id: key, active: is_active });
                assert(self.entries() =~= before.push((id@, is_active)));
            },
        }
    }

    /// The identities of the members whose status is `active_status`, in order of arrival.
    pub fn get_clients_with_active_status(&self, active_status: bool) -> (ids: Vec<String>)
        requires
            self.wf(),
        ensures
            ids_of(ids@).no_duplicates(),
            forall|k: Seq<char>|
                #[trigger] ids_of(ids@).contains(k) <==> (self.members().contains_key(k) && self.members()[k]
                    == active_status),
    {
        proof {
            lemma_map_of(self.entries());
        }
        let ghost e = self.entries();
        let mut ids: Vec<String> = Vec::new();
        let mut i: usize = 0;
        while i < self.client_statuses.len()
            invariant
                e == self.entries(),
                keys_unique(e),
                i <= e.len(),
                forall|a: int, b: int|
                    0 <= a < ids@.len() && 0 <= b < ids@.len() && a != b ==> #[trigger] ids_of(ids@)[a]
                        != #[trigger] ids_of(ids@)[b],
                forall|k: Seq<char>|
                    #[trigger] ids_of(ids@).contains(k) <==> exists|j: int|
                        0 <= j < i && #[trigger] e[j] == (k, active_status),
            decreases self.client_statuses.len() - i,
        {
            if self.client_statuses[i].active == active_status {
                let ghost old_ids = ids_of(ids@);
                let id = self.client_statuses[i].id.clone();
                ids.push(id);
                assert(ids_of(ids@) =~= old_ids.push(e[i as int].0));
                assert forall|k: Seq<char>| #[trigger] ids_of(ids@).contains(k) <==> exists|j: int|
                    0 <= j < i + 1 && #[trigger] e[j] == (k, active_status) by {
                    if ids_of(ids@).contains(k) && k != e[i as int].0 {
                        assert(old_ids.contains(k)) by {
                            let t = choose|t: int| 0 <= t < ids_of(ids@).len() && ids_of(ids@)[t] == k;
                            assert(old_ids[t] == k);
                        }
                    }
                    if k == e[i as int].0 {
                        assert(ids_of(ids@)[old_ids.len() as int] == k);
                    }
                    if exists|j: int| 0 <= j < i && #[trigger] e[j] == (k, active_status) {
                        let j = choose|j: int| 0 <= j < i && #[trigger] e[j] == (k, active_status);
                        assert(old_ids.contains(k));
                        let t = choose|t: int| 0 <= t < old_ids.len() && old_ids[t] == k;
                        assert(ids_of(ids@)[t] == k);
                    }
                }
                assert forall|a: int, b: int|
                    0 <= a < ids@.len() && 0 <= b < ids@.len() && a != b implies #[trigger] ids_of(ids@)[a]
                        != #[trigger] ids_of(ids@)[b] by {
                    if b == ids@.len() - 1 && a < b {
                        assert(old_ids.contains(ids_of(ids@)[a]));
                        let j = choose|j: int| 0 <= j < i && #[trigger] e[j] == (ids_of(ids@)[a], active_status);
                        assert(e[j].0 != e[i as int].0);
                    }
                    if a == ids@.len() - 1 && b < a {
                        assert(old_ids.contains(ids_of(ids@)[b]));
                        let j = choose|j: int| 0 <= j < i && #[trigger] e[j] == (ids_of(ids@)[b], active_status);
                        assert(e[j].0 != e[i as int].0);
                    }
                }
            }
            i = i + 1;
        }
        assert forall|k: Seq<char>| #[trigger] ids_of(ids@).contains(k) <==> (self.members().contains_key(k)
            && self.members()[k] == active_status) by {
            if self.members().contains_key(k) && self.members()[k] == active_status {
                assert(has_key(e, k));
                let j = choose|j: int| 0 <= j < e.len() && #[trigger] e[j].0 == k;
                assert(e[j] == (k, active_status));
            }
            if ids_of(ids@).contains(k) {
                let j = choose|j: int| 0 <= j < e.len() && #[trigger] e[j] == (k, active_status);
                assert(e[j].0 == k);
            }
        }
        ids
    }

    /// Sets the status of the member `id`; does nothing if `id` is not a member.
    pub fn set_client_active_status(&mut self, id: &str, is_active: bool)
        requires
            old(self).wf(),
        ensures
            final(self).wf(),
            final(self).id == old(self).id,
            final(self).owner == old(self).owner,
            final(self).members() == if old(self).members().contains_key(id@) {
                old(self).members().insert(id@, is_active)
            } else {
                old(self).members()
            },
    {
        proof {
            lemma_map_of(self.entries());
        }
        if self.contains_client(id) {
            self.insert_client(id, is_active);
        }
    }
}

/// Makes `client_id` the owner of `session`.
pub fn set_new_session_owner(session: &mut Session, client_id: &String)
    ensures
        final(session).id == old(session).id,
        final(session).owner@ == client_id@,
        final(session).client_statuses == old(session).client_statuses,
{
    session.owner = client_id.clone();
}

} // verus!
