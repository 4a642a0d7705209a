//! The visibility scope engine.
//!
//! Once per tick, after all queued intents have been applied, the server
//! recomputes for each connected user the set of entities that belongs in
//! that user's replication view: the contents of the global lobby room
//! for an unassigned user, or the contents of the user's current room
//! otherwise.  Entities outside the set are implicitly dropped from the
//! user's view by the transport layer.

use crate::lobby::Lobby;
use crate::model::LobbyV;
use vstd::prelude::*;

verus! {

/// Appending an element a sequence does not yet hold keeps it free of
/// duplicates.
proof fn lemma_push_keeps_no_dup<A>(s: Seq<A>, x: A)
    requires
        s.no_duplicates(),
        !s.contains(x),
    ensures
        s.push(x).no_duplicates(),
{
    let s2 = s.push(x);
    assert forall|a: int, b: int|
        0 <= a < s2.len() && 0 <= b < s2.len() && a != b implies s2[a] != s2[b] by {
        if a == s.len() {
            if s2[b] == x {
                assert(s[b] == x);
                assert(s.contains(x));
            }
        } else if b == s.len() {
            if s2[a] == x {
                assert(s[a] == x);
                assert(s.contains(x));
            }
        }
    };
}

impl LobbyV {
    /// Does entity `e` belong in the replication view of connection `key`?
    ///
    /// Nothing is replicated to an unregistered connection.  An
    /// unassigned user sees the global lobby room: the user entities of
    /// all unassigned users plus the display entities of all live rooms.
    /// A seated user sees its current room: the room's display entity,
    /// its player entities, and the user entities those players point
    /// back at.
    pub open spec fn in_scope(self, key: u64, e: u64) -> bool {
        if !self.registered(key) {
            false
        } else if self.in_room(key) {
            let r = self.rooms[self.room_of(key)];
            e == r.entity || (exists|m: int|
                0 <= m < r.members.len() && (#[trigger] r.members[m].entity == e
                    || r.members[m].back.user == e))
        } else {
            (exists|u: int|
                0 <= u < self.users.len() && #[trigger] self.users[u].entity == e && !self.in_room(
                    self.users[u].key,
                )) || (exists|i: int|
                0 <= i < self.rooms.len() && #[trigger] self.rooms[i].entity == e)
        }
    }
}

impl Lobby {
    /// The replication view of connection `user_key` this tick: every
    /// entity in scope, each exactly once.
    pub fn compute_scope(&self, user_key: u64) -> (r: Vec<u64>)
        requires
            self.wf(),
        ensures
            forall|e: u64| r@.contains(e) <==> self@.in_scope(user_key, e),
            r@.no_duplicates(),
    {
        match self.locate(user_key) {
            Some((ri, mi)) => {
                proof {
                    self@.lemma_member_slot_is(user_key, ri as int, mi as int);
                    assert(self@.registered(self@.rooms[ri as int].members[mi as int].key));
                }
                let out = self.room_scope(ri);
                proof {
                    assert(self@.room_of(user_key) == ri as int);
                    let rv = self@.rooms[ri as int];
                    assert forall|e: u64| out@.contains(e) <==> self@.in_scope(user_key, e) by {
                        if out@.contains(e) && e != rv.entity {
                            let n = choose|n: int|
                                0 <= n < rv.members.len() && (#[trigger] rv.members[n].entity == e
                                    || rv.members[n].back.user == e);
                            assert(0 <= n < self@.rooms[self@.room_of(user_key)].members.len() && (
                            self@.rooms[self@.room_of(user_key)].members[n].entity == e
                                || self@.rooms[self@.room_of(user_key)].members[n].back.user == e));
                            assert(self@.in_scope(user_key, e));
                        }
                        if self@.in_scope(user_key, e) && e != rv.entity {
                            let n = choose|n: int|
                                0 <= n < self@.rooms[self@.room_of(user_key)].members.len() && (
                                #[trigger] self@.rooms[self@.room_of(user_key)].members[n].entity
                                    == e || self@.rooms[self@.room_of(
                                    user_key,
                                )].members[n].back.user == e);
                            assert(0 <= n < rv.members.len() && (rv.members[n].entity == e
                                || rv.members[n].back.user == e));
                            assert(out@.contains(e));
                        }
                    };
                }
                out
            },
            None => {
                match self.find_user(user_key) {
                    None => {
                        let out: Vec<u64> = Vec::new();
                        proof {
                            assert(forall|e: u64| !out@.contains(e));
                        }
                        out
                    },
                    Some(_) => {
                        proof {
                            assert(self@.registered(user_key));
                        }
                        self.lobby_scope()
                    },
                }
            },
        }
    }

    /// The contents of the room at registry index `ri`: its display
    /// entity, its player entities and the user entities they point at.
    fn room_scope(&self, ri: usize) -> (r: Vec<u64>)
        requires
            self.wf(),
            ri < self@.rooms.len(),
        ensures
            forall|e: u64|
                r@.contains(e) <==> (e == self@.rooms[ri as int].entity || (exists|m: int|
                    0 <= m < self@.rooms[ri as int].members.len()
                        && (#[trigger] self@.rooms[ri as int].members[m].entity == e
                        || self@.rooms[ri as int].members[m].back.user == e))),
            r@.no_duplicates(),
    {
        let ghost rv = self@.rooms[ri as int];
        let room = &self.rooms[ri];
        let mut out: Vec<u64> = Vec::new();
        out.push(room.entity);
        proof {
            assert forall|e: u64| out@.contains(e) <==> e == rv.entity by {
                if out@.contains(e) {
                    let k = choose|k: int| 0 <= k < out@.len() && out@[k] == e;
                    assert(k == 0);
                }
                if e == rv.entity {
                    assert(out@[0] == e);
                }
            };
        }
        let mut m: usize = 0;
        while m < room.members.len()
            invariant
                self.wf(),
                ri < self@.rooms.len(),
                rv == self@.rooms[ri as int],
                room == self.rooms@[ri as int],
                m <= room.members.len(),
                forall|e: u64|
                    out@.contains(e) <==> (e == rv.entity || (exists|n: int|
                        0 <= n < m && (#[trigger] rv.members[n].entity == e
                            || rv.members[n].back.user == e))),
                out@.no_duplicates(),
            decreases room.members.len() - m,
        {
            let ghost pre = out@;
            let player = room.members[m].entity;
            let user = room.members[m].back.user;
            proof {
                self.lemma_room_scope_fresh(ri as int, m as int, pre);
            }
            out.push(player);
            out.push(user);
            proof {
                assert(out@ == pre.push(player).push(user));
                lemma_push_keeps_no_dup(pre, player);
                lemma_push_keeps_no_dup(pre.push(player), user);
                assert forall|e: u64|
                    out@.contains(e) <==> (e == rv.entity || (exists|n: int|
                        0 <= n < m + 1 && (#[trigger] rv.members[n].entity == e
                            || rv.members[n].back.user == e))) by {
                    if out@.contains(e) {
                        let k = choose|k: int| 0 <= k < out@.len() && out@[k] == e;
                        if k < pre.len() {
                            assert(pre.contains(e));
                        } else if k == pre.len() {
                            assert(rv.members[m as int].entity == e);
                        } else {
                            assert(rv.members[m as int].back.user == e);
                        }
                    }
                    if e == rv.entity || (exists|n: int|
                        0 <= n < m + 1 && (rv.members[n].entity == e || rv.members[n].back.user
                            == e)) {
                        if e == rv.entity {
                            assert(pre.contains(e));
                            let k = choose|k: int| 0 <= k < pre.len() && pre[k] == e;
                            assert(out@[k] == e);
                        } else {
                            let n = choose|n: int|
                                0 <= n < m + 1 && (rv.members[n].entity == e
                                    || rv.members[n].back.user == e);
                            if n < m {
                                assert(pre.contains(e));
                                let k = choose|k: int| 0 <= k < pre.len() && pre[k] == e;
                                assert(out@[k] == e);
                            } else {
                                if rv.members[n].entity == e {
                                    assert(out@[pre.len() as int] == e);
                                } else {
                                    assert(out@[pre.len() as int + 1] == e);
                                }
                            }
                        }
                        assert(out@.contains(e));
                    }
                };
            }
            m += 1;
        }
        out
    }

    /// Neither the player entity nor the back-referenced user entity of
    /// member `m` occurs among the scope entries gathered so far.
    proof fn lemma_room_scope_fresh(&self, ri: int, m: int, pre: Seq<u64>)
        requires
            self.wf(),
            0 <= ri < self@.rooms.len(),
            0 <= m < self@.rooms[ri].members.len(),
            forall|e: u64|
                pre.contains(e) <==> (e == self@.rooms[ri].entity || (exists|n: int|
                    0 <= n < m && (#[trigger] self@.rooms[ri].members[n].entity == e
                        || self@.rooms[ri].members[n].back.user == e))),
            pre.no_duplicates(),
        ensures
            !pre.contains(self@.rooms[ri].members[m].entity),
            !pre.contains(self@.rooms[ri].members[m].back.user),
            self@.rooms[ri].members[m].entity != self@.rooms[ri].members[m].back.user,
            !pre.push(self@.rooms[ri].members[m].entity).contains(
                self@.rooms[ri].members[m].back.user,
            ),
    {
        let l = self@;
        let rv = l.rooms[ri];
        let player = rv.members[m].entity;
        let user = rv.members[m].back.user;
        // The back-reference is a registered user entity.
        assert(l.registered(rv.members[m].key));
        let um = l.user_index(rv.members[m].key);
        assert(l.users[um].key == rv.members[m].key);
        assert(user == l.users[um].entity);
        // The player entity collides with nothing gathered so far.
        if pre.contains(player) {
            if player == rv.entity {
                assert(false);
            } else {
                let n = choose|n: int|
                    0 <= n < m && (rv.members[n].entity == player || rv.members[n].back.user
                        == player);
                if rv.members[n].entity == player {
                    assert(rv.members[n].key != rv.members[m].key);
                    assert(false);
                } else {
                    assert(l.registered(rv.members[n].key));
                    let un = l.user_index(rv.members[n].key);
                    assert(l.users[un].key == rv.members[n].key);
                    assert(l.users[un].entity != rv.members[m].entity);
                    assert(false);
                }
            }
        }
        // The user entity collides with nothing gathered so far.
        if pre.contains(user) {
            if user == rv.entity {
                assert(false);
            } else {
                let n = choose|n: int|
                    0 <= n < m && (rv.members[n].entity == user || rv.members[n].back.user
                        == user);
                if rv.members[n].entity == user {
                    assert(false);
                } else {
                    assert(l.registered(rv.members[n].key));
                    let un = l.user_index(rv.members[n].key);
                    assert(l.users[un].key == rv.members[n].key);
                    assert(rv.members[n].back.user == l.users[un].entity);
                    assert(rv.members[n].key != rv.members[m].key);
                    if un != um {
                        assert(l.users[un].entity != l.users[um].entity);
                    } else {
                        assert(l.users[un].key == l.users[um].key);
                    }
                    assert(false);
                }
            }
        }
        assert(player != user);
        if pre.push(player).contains(user) {
            let k = choose|k: int| 0 <= k < pre.push(player).len() && pre.push(player)[k] == user;
            if k < pre.len() {
                assert(pre.contains(user));
            }
            assert(false);
        }
    }

    /// The contents of the global lobby room: the user entities of every
    /// unassigned user, and the display entities of all live rooms.
    fn lobby_scope(&self) -> (r: Vec<u64>)
        requires
            self.wf(),
        ensures
            forall|e: u64|
                r@.contains(e) <==> ((exists|u: int|
                    0 <= u < self@.users.len() && #[trigger] self@.users[u].entity == e
                        && !self@.in_room(self@.users[u].key)) || (exists|i: int|
                    0 <= i < self@.rooms.len() && #[trigger] self@.rooms[i].entity == e)),
            r@.no_duplicates(),
    {
        let mut out: Vec<u64> = Vec::new();
        let mut u: usize = 0;
        while u < self.users.len()
            invariant
                self.wf(),
                u <= self.users.len(),
                forall|e: u64|
                    out@.contains(e) <==> (exists|n: int|
                        0 <= n < u && #[trigger] self@.users[n].entity == e && !self@.in_room(
                            self@.users[n].key,
                        )),
                out@.no_duplicates(),
            decreases self.users.len() - u,
        {
            let ghost pre = out@;
            if self.locate(self.users[u].key).is_none() {
                let entity = self.users[u].entity;
                proof {
                    if pre.contains(entity) {
                        let n = choose|n: int|
                            0 <= n < u && self@.users[n].entity == entity && !self@.in_room(
                                self@.users[n].key,
                            );
                        assert(self@.users[n].key != self@.users[u as int].key);
                        assert(self@.users[n].entity != self@.users[u as int].entity);
                        assert(false);
                    }
                }
                out.push(entity);
                proof {
                    assert(out@ == pre.push(entity));
                    lemma_push_keeps_no_dup(pre, entity);
                    assert forall|e: u64|
                        out@.contains(e) <==> (exists|n: int|
                            0 <= n < u + 1 && #[trigger] self@.users[n].entity == e
                                && !self@.in_room(self@.users[n].key)) by {
                        if out@.contains(e) {
                            let k = choose|k: int| 0 <= k < out@.len() && out@[k] == e;
                            if k < pre.len() {
                                assert(pre.contains(e));
                            } else {
                                assert(self@.users[u as int].entity == e);
                            }
                        }
                        if exists|n: int|
                            0 <= n < u + 1 && self@.users[n].entity == e && !self@.in_room(
                                self@.users[n].key,
                            ) {
                            let n = choose|n: int|
                                0 <= n < u + 1 && self@.users[n].entity == e && !self@.in_room(
                                    self@.users[n].key,
                                );
                            if n < u {
                                assert(pre.contains(e));
                                let k = choose|k: int| 0 <= k < pre.len() && pre[k] == e;
                                assert(out@[k] == e);
                            } else {
                                assert(out@[pre.len() as int] == e);
                            }
                            assert(out@.contains(e));
                        }
                    };
                }
            } else {
                proof {
                    assert(self@.in_room(self@.users[u as int].key));
                    assert forall|e: u64|
                        out@.contains(e) <==> (exists|n: int|
                            0 <= n < u + 1 && #[trigger] self@.users[n].entity == e
                                && !self@.in_room(self@.users[n].key)) by {
                        if exists|n: int|
                            0 <= n < u + 1 && self@.users[n].entity == e && !self@.in_room(
                                self@.users[n].key,
                            ) {
                            let n = choose|n: int|
                                0 <= n < u + 1 && self@.users[n].entity == e && !self@.in_room(
                                    self@.users[n].key,
                                );
                            assert(n < u);
                        }
                    };
                }
            }
            u += 1;
        }
        let ghost users_done = out@;
        let mut i: usize = 0;
        while i < self.rooms.len()
            invariant
                self.wf(),
                i <= self.rooms.len(),
                forall|e: u64|
                    out@.contains(e) <==> ((exists|n: int|
                        0 <= n < self@.users.len() && #[trigger] self@.users[n].entity == e
                            && !self@.in_room(self@.users[n].key)) || (exists|n: int|
                        0 <= n < i && #[trigger] self@.rooms[n].entity == e)),
                out@.no_duplicates(),
            decreases self.rooms.len() - i,
        {
            let ghost pre = out@;
            let entity = self.rooms[i].entity;
            proof {
                if pre.contains(entity) {
                    if exists|n: int|
                        0 <= n < self@.users.len() && self@.users[n].entity == entity
                            && !self@.in_room(self@.users[n].key) {
                        let n = choose|n: int|
                            0 <= n < self@.users.len() && self@.users[n].entity == entity
                                && !self@.in_room(self@.users[n].key);
                        assert(self@.users[n].entity != self@.rooms[i as int].entity);
                        assert(false);
                    } else {
                        let n = choose|n: int| 0 <= n < i && self@.rooms[n].entity == entity;
                        assert(self@.rooms[n].entity != self@.rooms[i as int].entity);
                        assert(false);
                    }
                }
            }
            out.push(entity);
            proof {
                assert(out@ == pre.push(entity));
                lemma_push_keeps_no_dup(pre, entity);
                assert forall|e: u64|
                    out@.contains(e) <==> ((exists|n: int|
                        0 <= n < self@.users.len() && #[trigger] self@.users[n].entity == e
                            && !self@.in_room(self@.users[n].key)) || (exists|n: int|
                        0 <= n < i + 1 && #[trigger] self@.rooms[n].entity == e)) by {
                    if out@.contains(e) {
                        let k = choose|k: int| 0 <= k < out@.len() && out@[k] == e;
                        if k < pre.len() {
                            assert(pre.contains(e));
                        } else {
                            assert(self@.rooms[i as int].entity == e);
                        }
                    }
                    if exists|n: int|
                        0 <= n < self@.users.len() && self@.users[n].entity == e && !self@.in_room(
                            self@.users[n].key,
                        ) {
                        assert(pre.contains(e));
                        let k = choose|k: int| 0 <= k < pre.len() && pre[k] == e;
                        assert(out@[k] == e);
                    }
                    if exists|n: int| 0 <= n < i + 1 && self@.rooms[n].entity == e {
                        let n = choose|n: int| 0 <= n < i + 1 && self@.rooms[n].entity == e;
                        if n < i {
                            assert(pre.contains(e));
                            let k = choose|k: int| 0 <= k < pre.len() && pre[k] == e;
                            assert(out@[k] == e);
                        } else {
                            assert(out@[pre.len() as int] == e);
                        }
                        assert(out@.contains(e));
                    }
                };
            }
            i += 1;
        }
        out
    }
}

} // verus!
