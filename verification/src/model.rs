//! The mathematical model of the lobby state.
//!
//! [`LobbyV`] is the view of the executable [`crate::lobby::Lobby`]: plain
//! sequences of user and room records together with the id allocation
//! counter.  Every lobby operation is described here twice over: a total
//! transition function that maps the old state to the new one, and a
//! well-formedness predicate [`LobbyV::wf`] that each transition preserves.
//! The executable operations promise in their contracts to land exactly on
//! these transitions.

use crate::protocol::Player;
use vstd::prelude::*;

verus! {

/// One user's occupancy of one room: the connection key of the occupant,
/// the entity id of the player object that represents the occupancy, and
/// the back-reference component pointing at the occupant's user entity.
#[derive(Clone, Copy, Debug, PartialEq, Eq, Structural)]
pub struct Member {
    pub key: u64,
    pub entity: u64,
    pub back: Player,
}

/// A registered user: connection key, user entity id, display name.
#[verifier::ext_equal]
pub ghost struct UserV {
    pub key: u64,
    pub entity: u64,
    pub name: Seq<char>,
}

/// A live room: its display entity, its display name, its members in
/// insertion order, and the entity id of the member that owns it.
#[verifier::ext_equal]
pub ghost struct RoomV {
    pub entity: u64,
    pub name: Seq<char>,
    pub members: Seq<Member>,
    pub owner: u64,
}

/// The whole lobby state: the user directory, the room registry, and the
/// next never-yet-issued entity id.
#[verifier::ext_equal]
pub ghost struct LobbyV {
    pub users: Seq<UserV>,
    pub rooms: Seq<RoomV>,
    pub next_entity: u64,
}

/// The survival test of the tidy pass: a room stays while it has members.
pub open spec fn occupied_pred() -> spec_fn(RoomV) -> bool {
    |r: RoomV| r.members.len() != 0
}

/// Filtering keeps a sequence whose elements all pass untouched.
pub proof fn lemma_filter_all_true<A>(s: Seq<A>, pred: spec_fn(A) -> bool)
    requires
        forall|i: int| 0 <= i < s.len() ==> pred(#[trigger] s[i]),
    ensures
        s.filter(pred) == s,
    decreases s.len(),
{
    reveal(Seq::filter);
    if s.len() == 0 {
        assert(s.filter(pred) =~= s);
    } else {
        assert(pred(s[s.len() - 1]));
        assert forall|i: int| 0 <= i < s.drop_last().len() implies pred(
            #[trigger] s.drop_last()[i],
        ) by {
            assert(s.drop_last()[i] == s[i]);
        };
        lemma_filter_all_true(s.drop_last(), pred);
        assert(s.drop_last().push(s.last()) =~= s);
    }
}

/// Filtering a sequence whose one failing element sits at `x` removes
/// exactly that element.
pub proof fn lemma_filter_skip_one<A>(s: Seq<A>, pred: spec_fn(A) -> bool, x: int)
    requires
        0 <= x < s.len(),
        !pred(s[x]),
        forall|i: int| 0 <= i < s.len() && i != x ==> pred(#[trigger] s[i]),
    ensures
        s.filter(pred) == s.remove(x),
    decreases s.len(),
{
    reveal(Seq::filter);
    if x == s.len() - 1 {
        assert forall|i: int| 0 <= i < s.drop_last().len() implies pred(
            #[trigger] s.drop_last()[i],
        ) by {
            assert(s.drop_last()[i] == s[i]);
        };
        lemma_filter_all_true(s.drop_last(), pred);
        assert(s.remove(x) =~= s.drop_last());
    } else {
        assert(pred(s[s.len() - 1]));
        assert forall|i: int|
            0 <= i < s.drop_last().len() && i != x implies pred(#[trigger] s.drop_last()[i]) by {
            assert(s.drop_last()[i] == s[i]);
        };
        assert(s.drop_last()[x] == s[x]);
        lemma_filter_skip_one(s.drop_last(), pred, x);
        assert(s.remove(x) =~= s.drop_last().remove(x).push(s.last()));
    }
}

impl RoomV {
    /// Does `key` occupy this room?
    pub open spec fn has_key(self, key: u64) -> bool {
        exists|m: int| 0 <= m < self.members.len() && self.members[m].key == key
    }

    /// The index of `key`'s member slot (unique in a well-formed state).
    pub open spec fn member_index(self, key: u64) -> int {
        choose|m: int| 0 <= m < self.members.len() && self.members[m].key == key
    }
}

impl LobbyV {
    /// The state of a freshly constructed lobby.
    pub open spec fn empty() -> LobbyV {
        LobbyV { users: Seq::empty(), rooms: Seq::empty(), next_entity: 0 }
    }

    /// Does the directory hold a user for connection `key`?
    pub open spec fn registered(self, key: u64) -> bool {
        exists|i: int| 0 <= i < self.users.len() && self.users[i].key == key
    }

    /// The directory index of `key`'s user (unique in a well-formed state).
    pub open spec fn user_index(self, key: u64) -> int {
        choose|i: int| 0 <= i < self.users.len() && self.users[i].key == key
    }

    /// The user entity id registered for `key`.
    pub open spec fn user_entity(self, key: u64) -> u64 {
        self.users[self.user_index(key)].entity
    }

    /// Is `key` a member of some room?
    pub open spec fn in_room(self, key: u64) -> bool {
        exists|i: int| 0 <= i < self.rooms.len() && self.rooms[i].has_key(key)
    }

    /// The registry index of the room holding `key` (unique when well-formed).
    pub open spec fn room_of(self, key: u64) -> int {
        choose|i: int| 0 <= i < self.rooms.len() && self.rooms[i].has_key(key)
    }

    /// Registered and waiting in the lobby rather than seated in a room.
    pub open spec fn unassigned(self, key: u64) -> bool {
        self.registered(key) && !self.in_room(key)
    }

    /// Does some live room have display entity `room`?
    pub open spec fn has_room_entity(self, room: u64) -> bool {
        exists|i: int| 0 <= i < self.rooms.len() && self.rooms[i].entity == room
    }

    /// The registry index of the room with display entity `room`.
    pub open spec fn room_index_of_entity(self, room: u64) -> int {
        choose|i: int| 0 <= i < self.rooms.len() && self.rooms[i].entity == room
    }

    // ------------------------------------------------------------------
    // Well-formedness
    // ------------------------------------------------------------------

    /// Directory entries carry pairwise distinct keys and entities.
    pub open spec fn users_distinct(self) -> bool {
        forall|i: int, j: int|
            0 <= i < j < self.users.len() ==> #[trigger] self.users[i].key != #[trigger] self.users[j].key
                && self.users[i].entity != self.users[j].entity
    }

    /// Rooms carry pairwise distinct display entities.
    pub open spec fn rooms_distinct(self) -> bool {
        forall|i: int, j: int|
            0 <= i < j < self.rooms.len() ==> #[trigger] self.rooms[i].entity
                != #[trigger] self.rooms[j].entity
    }

    /// Member slots across all rooms carry pairwise distinct keys and
    /// pairwise distinct player entities: a user occupies at most one room,
    /// and each occupancy is its own entity.
    pub open spec fn members_distinct(self) -> bool {
        forall|i: int, m: int, j: int, n: int|
            0 <= i < self.rooms.len() && 0 <= m < self.rooms[i].members.len() && 0 <= j
                < self.rooms.len() && 0 <= n < self.rooms[j].members.len() && (i != j || m != n)
                ==> #[trigger] self.rooms[i].members[m].key != #[trigger] self.rooms[j].members[n].key
                && self.rooms[i].members[m].entity != self.rooms[j].members[n].entity
    }

    /// No room outlives its last member, and every occupied room has an
    /// owner seated in it.
    pub open spec fn rooms_owned(self) -> bool {
        forall|i: int|
            0 <= i < self.rooms.len() ==> #[trigger] self.rooms[i].members.len() >= 1 && (exists|
                m: int,
            | 0 <= m < self.rooms[i].members.len() && self.rooms[i].members[m].entity
                == self.rooms[i].owner)
    }

    /// Every member key resolves in the directory, and its back-reference
    /// points at exactly that directory entry's user entity.
    pub open spec fn members_registered(self) -> bool {
        forall|i: int, m: int|
            0 <= i < self.rooms.len() && 0 <= m < self.rooms[i].members.len() ==> self.registered(
                #[trigger] self.rooms[i].members[m].key,
            )
    }

    /// The back-reference of every member slot agrees with the directory.
    pub open spec fn members_backrefs(self) -> bool {
        forall|i: int, m: int, u: int|
            0 <= i < self.rooms.len() && 0 <= m < self.rooms[i].members.len() && 0 <= u
                < self.users.len() && #[trigger] self.rooms[i].members[m].key
                == #[trigger] self.users[u].key ==> self.rooms[i].members[m].back.user
                == self.users[u].entity
    }

    /// Every id in use was issued: it lies below the allocation counter.
    pub open spec fn ids_issued(self) -> bool {
        &&& forall|i: int| 0 <= i < self.users.len() ==> #[trigger] self.users[i].entity < self.next_entity
        &&& forall|i: int|
            0 <= i < self.rooms.len() ==> #[trigger] self.rooms[i].entity < self.next_entity
        &&& forall|i: int, m: int|
            0 <= i < self.rooms.len() && 0 <= m < self.rooms[i].members.len()
                ==> #[trigger] self.rooms[i].members[m].entity < self.next_entity
    }

    /// User, room and player entities never share an id.
    pub open spec fn ids_disjoint(self) -> bool {
        &&& forall|u: int, i: int|
            0 <= u < self.users.len() && 0 <= i < self.rooms.len() ==> #[trigger] self.users[u].entity
                != #[trigger] self.rooms[i].entity
        &&& forall|u: int, i: int, m: int|
            0 <= u < self.users.len() && 0 <= i < self.rooms.len() && 0 <= m
                < self.rooms[i].members.len() ==> #[trigger] self.users[u].entity
                != #[trigger] self.rooms[i].members[m].entity
        &&& forall|j: int, i: int, m: int|
            0 <= j < self.rooms.len() && 0 <= i < self.rooms.len() && 0 <= m
                < self.rooms[i].members.len() ==> #[trigger] self.rooms[j].entity
                != #[trigger] self.rooms[i].members[m].entity
    }

    /// The invariant that holds between any two lobby operations.
    pub open spec fn wf(self) -> bool {
        &&& self.users_distinct()
        &&& self.rooms_distinct()
        &&& self.members_distinct()
        &&& self.rooms_owned()
        &&& self.members_registered()
        &&& self.members_backrefs()
        &&& self.ids_issued()
        &&& self.ids_disjoint()
    }

    // ------------------------------------------------------------------
    // Transitions
    // ------------------------------------------------------------------

    /// Registration: a new user entity joins the directory, unassigned.
    /// Refused (state unchanged) when the key is already registered.
    pub open spec fn register_t(self, key: u64, name: Seq<char>) -> LobbyV {
        if self.registered(key) {
            self
        } else {
            LobbyV {
                users: self.users.push(
                    UserV { key, entity: self.next_entity, name },
                ),
                rooms: self.rooms,
                next_entity: (self.next_entity + 1) as u64,
            }
        }
    }

    /// Hosting: a new room appears whose sole member, the host's new player
    /// entity, owns it.  Refused when the key has no unassigned user.
    pub open spec fn host_t(self, key: u64, name: Seq<char>) -> LobbyV {
        if !self.unassigned(key) {
            self
        } else {
            let room_entity = self.next_entity;
            let player_entity = (self.next_entity + 1) as u64;
            let host = Member {
                key,
                entity: player_entity,
                back: Player { user: self.user_entity(key) },
            };
            LobbyV {
                users: self.users,
                rooms: self.rooms.push(
                    RoomV { entity: room_entity, name, members: seq![host], owner: player_entity },
                ),
                next_entity: (self.next_entity + 2) as u64,
            }
        }
    }

    /// Joining: a new player entity is appended to the addressed room's
    /// member list; the owner stays.  Refused when the room does not
    /// resolve or the key has no unassigned user.
    pub open spec fn join_t(self, key: u64, room: u64) -> LobbyV {
        if !(self.has_room_entity(room) && self.unassigned(key)) {
            self
        } else {
            let ri = self.room_index_of_entity(room);
            let r = self.rooms[ri];
            let joiner = Member {
                key,
                entity: self.next_entity,
                back: Player { user: self.user_entity(key) },
            };
            LobbyV {
                users: self.users,
                rooms: self.rooms.update(
                    ri,
                    RoomV {
                        entity: r.entity,
                        name: r.name,
                        members: r.members.push(joiner),
                        owner: r.owner,
                    },
                ),
                next_entity: (self.next_entity + 1) as u64,
            }
        }
    }

    /// Leaving: `key`'s player slot disappears from its room.  An emptied
    /// room is tidied away; otherwise, if the departing member owned the
    /// room, ownership migrates to the earliest-seated remaining member.
    /// A no-op when `key` occupies no room.
    pub open spec fn leave_t(self, key: u64) -> LobbyV {
        if !self.in_room(key) {
            self
        } else {
            let ri = self.room_of(key);
            let r = self.rooms[ri];
            let mi = r.member_index(key);
            let rest = r.members.remove(mi);
            if rest.len() == 0 {
                LobbyV { users: self.users, rooms: self.rooms.remove(ri), next_entity: self.next_entity }
            } else {
                let owner = if r.members[mi].entity == r.owner {
                    rest[0].entity
                } else {
                    r.owner
                };
                LobbyV {
                    users: self.users,
                    rooms: self.rooms.update(
                        ri,
                        RoomV { entity: r.entity, name: r.name, members: rest, owner },
                    ),
                    next_entity: self.next_entity,
                }
            }
        }
    }

    /// The member promoted by [`LobbyV::leave_t`]: the earliest-seated
    /// remaining member, and only when the departing member owned a room
    /// that stays occupied.
    pub open spec fn leave_successor(self, key: u64) -> Option<u64> {
        if !self.in_room(key) {
            None
        } else {
            let r = self.rooms[self.room_of(key)];
            let mi = r.member_index(key);
            let rest = r.members.remove(mi);
            if rest.len() > 0 && r.members[mi].entity == r.owner {
                Some(rest[0].entity)
            } else {
                None
            }
        }
    }

    /// The tidy pass: every room whose membership has dropped to zero is
    /// removed from the registry; everything else stays.
    pub open spec fn tidy_t(self) -> LobbyV {
        LobbyV {
            users: self.users,
            rooms: self.rooms.filter(occupied_pred()),
            next_entity: self.next_entity,
        }
    }

    /// Disconnection: the user leaves any room as in [`LobbyV::leave_t`]
    /// and then vanishes from the directory altogether.  Idempotent.
    pub open spec fn clear_t(self, key: u64) -> LobbyV {
        let left = self.leave_t(key);
        if left.registered(key) {
            LobbyV {
                users: left.users.remove(left.user_index(key)),
                rooms: left.rooms,
                next_entity: left.next_entity,
            }
        } else {
            left
        }
    }
}

impl LobbyV {
    /// In a state with a duplicate-free directory, any directory index that
    /// holds `key` is the one `user_index` denotes.
    pub proof fn lemma_user_index_is(self, key: u64, i: int)
        requires
            self.users_distinct(),
            0 <= i < self.users.len(),
            self.users[i].key == key,
        ensures
            self.registered(key),
            self.user_index(key) == i,
            self.user_entity(key) == self.users[i].entity,
    {
        assert(self.registered(key));
        let j = self.user_index(key);
        if i < j {
            assert(self.users[i].key != self.users[j].key);
        } else if j < i {
            assert(self.users[j].key != self.users[i].key);
        }
    }

    /// In a state with pairwise distinct member keys, any member slot that
    /// holds `key` is the one `room_of` and `member_index` denote.
    pub proof fn lemma_member_slot_is(self, key: u64, i: int, m: int)
        requires
            self.members_distinct(),
            0 <= i < self.rooms.len(),
            0 <= m < self.rooms[i].members.len(),
            self.rooms[i].members[m].key == key,
        ensures
            self.in_room(key),
            self.room_of(key) == i,
            self.rooms[i].member_index(key) == m,
    {
        assert(self.rooms[i].has_key(key));
        let j = self.room_of(key);
        assert(0 <= j < self.rooms.len() && self.rooms[j].has_key(key));
        let n = self.rooms[j].member_index(key);
        assert(0 <= n < self.rooms[j].members.len() && self.rooms[j].members[n].key == key);
        if i != j || m != n {
            assert(self.rooms[i].members[m].key != self.rooms[j].members[n].key);
        }
        let m2 = self.rooms[i].member_index(key);
        assert(0 <= m2 < self.rooms[i].members.len() && self.rooms[i].members[m2].key == key);
        if m2 != m {
            assert(self.rooms[i].members[m].key != self.rooms[i].members[m2].key);
        }
    }

    /// Registration preserves the invariant; a fresh key really lands in
    /// the directory, assigned nowhere.
    pub proof fn lemma_register_wf(self, key: u64, name: Seq<char>)
        requires
            self.wf(),
            self.next_entity < u64::MAX,
        ensures
            self.register_t(key, name).wf(),
            self.register_t(key, name).registered(key),
            self.register_t(key, name).in_room(key) == self.in_room(key),
    {
        let l2 = self.register_t(key, name);
        if self.registered(key) {
        } else {
            let len = self.users.len() as int;
            assert(l2.users[len].key == key);
            assert(l2.registered(key));
            assert forall|i: int, j: int| 0 <= i < j < l2.users.len() implies l2.users[i].key
                != l2.users[j].key && l2.users[i].entity != l2.users[j].entity by {
                if j == len {
                    assert(l2.users[i] == self.users[i]);
                    assert(self.users[i].key != key);
                    assert(self.users[i].entity < self.next_entity);
                }
            };
            assert forall|i: int, m: int|
                0 <= i < l2.rooms.len() && 0 <= m < l2.rooms[i].members.len() implies l2.registered(
                l2.rooms[i].members[m].key,
            ) by {
                let k = self.rooms[i].members[m].key;
                assert(self.registered(k));
                let u = self.user_index(k);
                assert(l2.users[u].key == k);
            };
            assert forall|i: int, m: int, u: int|
                0 <= i < l2.rooms.len() && 0 <= m < l2.rooms[i].members.len() && 0 <= u
                    < l2.users.len() && l2.rooms[i].members[m].key == l2.users[u].key implies l2.rooms[i].members[m].back.user
                == l2.users[u].entity by {
                if u == len {
                    assert(self.registered(self.rooms[i].members[m].key));
                    assert(false);
                }
            };
            assert(l2.wf());
        }
        if self.in_room(key) {
            let ri = self.room_of(key);
            assert(l2.rooms[ri].has_key(key));
        }
        if l2.in_room(key) {
            let ri = l2.room_of(key);
            assert(self.rooms[ri].has_key(key));
        }
    }

    /// No member slot anywhere holds `key` when `key` occupies no room.
    pub proof fn lemma_not_in_room(self, key: u64)
        requires
            !self.in_room(key),
        ensures
            forall|i: int, m: int|
                0 <= i < self.rooms.len() && 0 <= m < self.rooms[i].members.len()
                    ==> #[trigger] self.rooms[i].members[m].key != key,
    {
        assert forall|i: int, m: int|
            0 <= i < self.rooms.len() && 0 <= m < self.rooms[i].members.len() implies #[trigger] self.rooms[i].members[m].key
            != key by {
            if self.rooms[i].members[m].key == key {
                assert(self.rooms[i].has_key(key));
            }
        };
    }

    /// Hosting preserves the invariant; an unassigned host really ends up
    /// seated in, and owning, the new room.
    pub proof fn lemma_host_wf(self, key: u64, name: Seq<char>)
        requires
            self.wf(),
            self.next_entity <= u64::MAX - 2,
        ensures
            self.host_t(key, name).wf(),
            self.unassigned(key) ==> self.host_t(key, name).in_room(key),
    {
        let l2 = self.host_t(key, name);
        if self.unassigned(key) {
            self.lemma_not_in_room(key);
            let len = self.rooms.len() as int;
            let player_entity = (self.next_entity + 1) as u64;
            let host = Member {
                key,
                entity: player_entity,
                back: Player { user: self.user_entity(key) },
            };
            assert(l2.rooms[len].members =~= seq![host]);
            assert(l2.rooms[len].members[0] == host);
            assert(l2.rooms[len].has_key(key));
            assert(l2.in_room(key));
            assert forall|i: int, m: int, j: int, n: int|
                0 <= i < l2.rooms.len() && 0 <= m < l2.rooms[i].members.len() && 0 <= j
                    < l2.rooms.len() && 0 <= n < l2.rooms[j].members.len() && (i != j || m != n)
                    implies l2.rooms[i].members[m].key != l2.rooms[j].members[n].key
                && l2.rooms[i].members[m].entity != l2.rooms[j].members[n].entity by {
                if i == len {
                    assert(l2.rooms[i].members[m] == host);
                    assert(l2.rooms[j].members[n] == self.rooms[j].members[n]);
                    assert(self.rooms[j].members[n].entity < self.next_entity);
                } else if j == len {
                    assert(l2.rooms[j].members[n] == host);
                    assert(l2.rooms[i].members[m] == self.rooms[i].members[m]);
                    assert(self.rooms[i].members[m].entity < self.next_entity);
                } else {
                    assert(l2.rooms[i].members[m] == self.rooms[i].members[m]);
                    assert(l2.rooms[j].members[n] == self.rooms[j].members[n]);
                }
            };
            assert forall|i: int|
                0 <= i < l2.rooms.len() implies l2.rooms[i].members.len() >= 1 && (exists|m: int|
                0 <= m < l2.rooms[i].members.len() && l2.rooms[i].members[m].entity
                    == l2.rooms[i].owner) by {
                if i == len {
                    assert(l2.rooms[i].members[0].entity == l2.rooms[i].owner);
                } else {
                    assert(l2.rooms[i] == self.rooms[i]);
                    let m = choose|m: int|
                        0 <= m < self.rooms[i].members.len() && self.rooms[i].members[m].entity
                            == self.rooms[i].owner;
                    assert(l2.rooms[i].members[m].entity == l2.rooms[i].owner);
                }
            };
            assert forall|i: int, m: int, u: int|
                0 <= i < l2.rooms.len() && 0 <= m < l2.rooms[i].members.len() && 0 <= u
                    < l2.users.len() && l2.rooms[i].members[m].key == l2.users[u].key implies l2.rooms[i].members[m].back.user
                == l2.users[u].entity by {
                if i == len {
                    self.lemma_user_index_is(key, u);
                } else {
                    assert(l2.rooms[i].members[m] == self.rooms[i].members[m]);
                }
            };
            assert(l2.members_registered()) by {
                assert forall|i: int, m: int|
                    0 <= i < l2.rooms.len() && 0 <= m < l2.rooms[i].members.len() implies l2.registered(
                    l2.rooms[i].members[m].key,
                ) by {
                    let k = l2.rooms[i].members[m].key;
                    if i == len {
                        assert(k == key);
                    } else {
                        assert(l2.rooms[i].members[m] == self.rooms[i].members[m]);
                        assert(self.registered(k));
                    }
                    let u = self.user_index(k);
                    assert(l2.users[u].key == k);
                };
            };
            assert(l2.wf());
        }
    }

    /// Joining preserves the invariant; with a resolving room and an
    /// unassigned key, the joiner really ends up seated.
    pub proof fn lemma_join_wf(self, key: u64, room: u64)
        requires
            self.wf(),
            self.next_entity < u64::MAX,
        ensures
            self.join_t(key, room).wf(),
            self.has_room_entity(room) && self.unassigned(key) ==> self.join_t(key, room).in_room(
                key,
            ),
    {
        let l2 = self.join_t(key, room);
        if self.has_room_entity(room) && self.unassigned(key) {
            self.lemma_not_in_room(key);
            let ri = self.room_index_of_entity(room);
            assert(0 <= ri < self.rooms.len() && self.rooms[ri].entity == room);
            let old_r = self.rooms[ri];
            let old_len = old_r.members.len() as int;
            let joiner = Member {
                key,
                entity: self.next_entity,
                back: Player { user: self.user_entity(key) },
            };
            assert(l2.rooms[ri].members[old_len] == joiner);
            assert(l2.rooms[ri].has_key(key));
            assert(l2.in_room(key));
            assert forall|i: int, m: int, j: int, n: int|
                0 <= i < l2.rooms.len() && 0 <= m < l2.rooms[i].members.len() && 0 <= j
                    < l2.rooms.len() && 0 <= n < l2.rooms[j].members.len() && (i != j || m != n)
                    implies l2.rooms[i].members[m].key != l2.rooms[j].members[n].key
                && l2.rooms[i].members[m].entity != l2.rooms[j].members[n].entity by {
                if i == ri && m == old_len {
                    assert(l2.rooms[i].members[m] == joiner);
                    assert(l2.rooms[j].members[n] == self.rooms[j].members[n]);
                    assert(self.rooms[j].members[n].entity < self.next_entity);
                } else if j == ri && n == old_len {
                    assert(l2.rooms[j].members[n] == joiner);
                    assert(l2.rooms[i].members[m] == self.rooms[i].members[m]);
                    assert(self.rooms[i].members[m].entity < self.next_entity);
                } else {
                    assert(l2.rooms[i].members[m] == self.rooms[i].members[m]);
                    assert(l2.rooms[j].members[n] == self.rooms[j].members[n]);
                }
            };
            assert forall|i: int|
                0 <= i < l2.rooms.len() implies l2.rooms[i].members.len() >= 1 && (exists|m: int|
                0 <= m < l2.rooms[i].members.len() && l2.rooms[i].members[m].entity
                    == l2.rooms[i].owner) by {
                let m = choose|m: int|
                    0 <= m < self.rooms[i].members.len() && self.rooms[i].members[m].entity
                        == self.rooms[i].owner;
                if i == ri {
                    assert(l2.rooms[i].members[m].entity == l2.rooms[i].owner);
                } else {
                    assert(l2.rooms[i] == self.rooms[i]);
                    assert(l2.rooms[i].members[m].entity == l2.rooms[i].owner);
                }
            };
            assert forall|i: int, m: int, u: int|
                0 <= i < l2.rooms.len() && 0 <= m < l2.rooms[i].members.len() && 0 <= u
                    < l2.users.len() && l2.rooms[i].members[m].key == l2.users[u].key implies l2.rooms[i].members[m].back.user
                == l2.users[u].entity by {
                if i == ri && m == old_len {
                    self.lemma_user_index_is(key, u);
                } else {
                    assert(l2.rooms[i].members[m] == self.rooms[i].members[m]);
                }
            };
            assert(l2.members_registered()) by {
                assert forall|i: int, m: int|
                    0 <= i < l2.rooms.len() && 0 <= m < l2.rooms[i].members.len() implies l2.registered(
                    l2.rooms[i].members[m].key,
                ) by {
                    let k = l2.rooms[i].members[m].key;
                    if i == ri && m == old_len {
                        assert(k == key);
                    } else {
                        assert(l2.rooms[i].members[m] == self.rooms[i].members[m]);
                        assert(self.registered(k));
                    }
                    let u = self.user_index(k);
                    assert(l2.users[u].key == k);
                };
            };
            assert(l2.ids_issued()) by {
                assert forall|i: int, m: int|
                    0 <= i < l2.rooms.len() && 0 <= m < l2.rooms[i].members.len() implies #[trigger] l2.rooms[i].members[m].entity
                    < l2.next_entity by {
                    if !(i == ri && m == old_len) {
                        assert(l2.rooms[i].members[m] == self.rooms[i].members[m]);
                    }
                };
            };
            assert(l2.ids_disjoint()) by {
                assert forall|u: int, i: int, m: int|
                    0 <= u < l2.users.len() && 0 <= i < l2.rooms.len() && 0 <= m
                        < l2.rooms[i].members.len() implies #[trigger] l2.users[u].entity
                    != #[trigger] l2.rooms[i].members[m].entity by {
                    if !(i == ri && m == old_len) {
                        assert(l2.rooms[i].members[m] == self.rooms[i].members[m]);
                    }
                };
                assert forall|j: int, i: int, m: int|
                    0 <= j < l2.rooms.len() && 0 <= i < l2.rooms.len() && 0 <= m
                        < l2.rooms[i].members.len() implies #[trigger] l2.rooms[j].entity
                    != #[trigger] l2.rooms[i].members[m].entity by {
                    assert(l2.rooms[j].entity == self.rooms[j].entity);
                    if !(i == ri && m == old_len) {
                        assert(l2.rooms[i].members[m] == self.rooms[i].members[m]);
                    }
                };
            };
            assert(l2.rooms_distinct()) by {
                assert forall|i: int, j: int| 0 <= i < j < l2.rooms.len() implies l2.rooms[i].entity
                    != l2.rooms[j].entity by {
                    assert(l2.rooms[i].entity == self.rooms[i].entity);
                    assert(l2.rooms[j].entity == self.rooms[j].entity);
                };
            };
            assert(l2.wf());
        }
    }

    /// Leaving preserves the invariant, touches neither the directory nor
    /// the allocation counter, and really unseats the key.
    pub proof fn lemma_leave_wf(self, key: u64)
        requires
            self.wf(),
        ensures
            self.leave_t(key).wf(),
            !self.leave_t(key).in_room(key),
            self.leave_t(key).users == self.users,
            self.leave_t(key).next_entity == self.next_entity,
    {
        let l2 = self.leave_t(key);
        if !self.in_room(key) {
        } else {
            let ri = self.room_of(key);
            assert(0 <= ri < self.rooms.len() && self.rooms[ri].has_key(key));
            let r = self.rooms[ri];
            let mi = r.member_index(key);
            assert(0 <= mi < r.members.len() && r.members[mi].key == key);
            let rest = r.members.remove(mi);
            r.members.remove_ensures(mi);
            if rest.len() == 0 {
                self.rooms.remove_ensures(ri);
                self.lemma_rooms_shrunk_wf(l2, ri, mi, key);
            } else {
                self.lemma_room_updated_wf(l2, ri, mi, key);
            }
        }
    }

    /// The case of [`LobbyV::lemma_leave_wf`] where the departing member
    /// was the last one and the room itself goes away.
    proof fn lemma_rooms_shrunk_wf(self, l2: LobbyV, ri: int, mi: int, key: u64)
        requires
            self.wf(),
            0 <= ri < self.rooms.len(),
            0 <= mi < self.rooms[ri].members.len(),
            self.rooms[ri].members[mi].key == key,
            l2.users == self.users,
            l2.next_entity == self.next_entity,
            l2.rooms == self.rooms.remove(ri),
        ensures
            l2.wf(),
            !l2.in_room(key),
    {
        self.rooms.remove_ensures(ri);
        assert forall|i: int|
            0 <= i < l2.rooms.len() implies #[trigger] l2.rooms[i] == (if i < ri {
            self.rooms[i]
        } else {
            self.rooms[i + 1]
        }) by {}
        assert forall|i: int, m: int|
            0 <= i < l2.rooms.len() && 0 <= m < l2.rooms[i].members.len() implies #[trigger] l2.rooms[i].members[m].key
            != key by {
            let oi = if i < ri { i } else { i + 1 };
            assert(l2.rooms[i] == self.rooms[oi]);
            assert(self.rooms[oi].members[m].key != self.rooms[ri].members[mi].key);
        };
        if l2.in_room(key) {
            let i = l2.room_of(key);
            let m = l2.rooms[i].member_index(key);
            assert(l2.rooms[i].members[m].key == key);
            assert(false);
        }
        assert(l2.users_distinct());
        assert forall|i: int, j: int| 0 <= i < j < l2.rooms.len() implies #[trigger] l2.rooms[i].entity
            != #[trigger] l2.rooms[j].entity by {
            let oi = if i < ri { i } else { i + 1 };
            let oj = if j < ri { j } else { j + 1 };
            assert(self.rooms[oi].entity != self.rooms[oj].entity);
        };
        assert forall|i: int, m: int, j: int, n: int|
            0 <= i < l2.rooms.len() && 0 <= m < l2.rooms[i].members.len() && 0 <= j
                < l2.rooms.len() && 0 <= n < l2.rooms[j].members.len() && (i != j || m != n)
                implies #[trigger] l2.rooms[i].members[m].key != #[trigger] l2.rooms[j].members[n].key
            && l2.rooms[i].members[m].entity != l2.rooms[j].members[n].entity by {
            let oi = if i < ri { i } else { i + 1 };
            let oj = if j < ri { j } else { j + 1 };
            assert(l2.rooms[i] == self.rooms[oi]);
            assert(l2.rooms[j] == self.rooms[oj]);
            assert(self.rooms[oi].members[m].key != self.rooms[oj].members[n].key);
        };
        assert forall|i: int|
            0 <= i < l2.rooms.len() implies #[trigger] l2.rooms[i].members.len() >= 1 && (exists|
                m: int,
            | 0 <= m < l2.rooms[i].members.len() && l2.rooms[i].members[m].entity
                == l2.rooms[i].owner) by {
            let oi = if i < ri { i } else { i + 1 };
            assert(l2.rooms[i] == self.rooms[oi]);
            assert(self.rooms[oi].members.len() >= 1);
            let m = choose|m: int|
                0 <= m < self.rooms[oi].members.len() && self.rooms[oi].members[m].entity
                    == self.rooms[oi].owner;
            assert(l2.rooms[i].members[m].entity == l2.rooms[i].owner);
        };
        assert forall|i: int, m: int|
            0 <= i < l2.rooms.len() && 0 <= m < l2.rooms[i].members.len() implies l2.registered(
            #[trigger] l2.rooms[i].members[m].key,
        ) by {
            let oi = if i < ri { i } else { i + 1 };
            assert(l2.rooms[i] == self.rooms[oi]);
            let k = self.rooms[oi].members[m].key;
            assert(self.registered(k));
            let u = self.user_index(k);
            assert(l2.users[u].key == k);
        };
        assert forall|i: int, m: int, u: int|
            0 <= i < l2.rooms.len() && 0 <= m < l2.rooms[i].members.len() && 0 <= u
                < l2.users.len() && #[trigger] l2.rooms[i].members[m].key == #[trigger] l2.users[u].key
            implies l2.rooms[i].members[m].back.user == l2.users[u].entity by {
            let oi = if i < ri { i } else { i + 1 };
            assert(l2.rooms[i] == self.rooms[oi]);
        };
        assert(l2.ids_issued()) by {
            assert forall|i: int|
                0 <= i < l2.rooms.len() implies #[trigger] l2.rooms[i].entity < l2.next_entity by {
                let oi = if i < ri { i } else { i + 1 };
                assert(l2.rooms[i] == self.rooms[oi]);
            };
            assert forall|i: int, m: int|
                0 <= i < l2.rooms.len() && 0 <= m < l2.rooms[i].members.len()
                    implies #[trigger] l2.rooms[i].members[m].entity < l2.next_entity by {
                let oi = if i < ri { i } else { i + 1 };
                assert(l2.rooms[i] == self.rooms[oi]);
            };
        };
        assert(l2.ids_disjoint()) by {
            assert forall|u: int, i: int|
                0 <= u < l2.users.len() && 0 <= i < l2.rooms.len() implies #[trigger] l2.users[u].entity
                != #[trigger] l2.rooms[i].entity by {
                let oi = if i < ri { i } else { i + 1 };
                assert(l2.rooms[i] == self.rooms[oi]);
            };
            assert forall|u: int, i: int, m: int|
                0 <= u < l2.users.len() && 0 <= i < l2.rooms.len() && 0 <= m
                    < l2.rooms[i].members.len() implies #[trigger] l2.users[u].entity
                != #[trigger] l2.rooms[i].members[m].entity by {
                let oi = if i < ri { i } else { i + 1 };
                assert(l2.rooms[i] == self.rooms[oi]);
            };
            assert forall|j: int, i: int, m: int|
                0 <= j < l2.rooms.len() && 0 <= i < l2.rooms.len() && 0 <= m
                    < l2.rooms[i].members.len() implies #[trigger] l2.rooms[j].entity
                != #[trigger] l2.rooms[i].members[m].entity by {
                let oi = if i < ri { i } else { i + 1 };
                let oj = if j < ri { j } else { j + 1 };
                assert(l2.rooms[i] == self.rooms[oi]);
                assert(l2.rooms[j] == self.rooms[oj]);
            };
        };
    }

    /// The case of [`LobbyV::lemma_leave_wf`] where members remain and the
    /// room stays, its ownership possibly migrated.
    proof fn lemma_room_updated_wf(self, l2: LobbyV, ri: int, mi: int, key: u64)
        requires
            self.wf(),
            0 <= ri < self.rooms.len(),
            0 <= mi < self.rooms[ri].members.len(),
            self.rooms[ri].members[mi].key == key,
            self.rooms[ri].members.remove(mi).len() > 0,
            l2.users == self.users,
            l2.next_entity == self.next_entity,
            l2.rooms == self.rooms.update(
                ri,
                RoomV {
                    entity: self.rooms[ri].entity,
                    name: self.rooms[ri].name,
                    members: self.rooms[ri].members.remove(mi),
                    owner: if self.rooms[ri].members[mi].entity == self.rooms[ri].owner {
                        self.rooms[ri].members.remove(mi)[0].entity
                    } else {
                        self.rooms[ri].owner
                    },
                },
            ),
        ensures
            l2.wf(),
            !l2.in_room(key),
    {
        let r = self.rooms[ri];
        let rest = r.members.remove(mi);
        r.members.remove_ensures(mi);
        // Map a surviving slot back to the one it occupied before the leave.
        assert forall|i: int, m: int|
            0 <= i < l2.rooms.len() && 0 <= m < l2.rooms[i].members.len()
                implies #[trigger] l2.rooms[i].members[m] == (if i == ri && m >= mi {
            self.rooms[i].members[m + 1]
        } else {
            self.rooms[i].members[m]
        }) by {
            if i != ri {
                assert(l2.rooms[i] == self.rooms[i]);
            }
        };
        assert forall|i: int, m: int|
            0 <= i < l2.rooms.len() && 0 <= m < l2.rooms[i].members.len() implies #[trigger] l2.rooms[i].members[m].key
            != key by {
            let om = if i == ri && m >= mi { m + 1 } else { m };
            assert(self.rooms[i].members[om].key != self.rooms[ri].members[mi].key);
        };
        if l2.in_room(key) {
            let i = l2.room_of(key);
            let m = l2.rooms[i].member_index(key);
            assert(l2.rooms[i].members[m].key == key);
            assert(false);
        }
        assert forall|i: int, j: int| 0 <= i < j < l2.rooms.len() implies #[trigger] l2.rooms[i].entity
            != #[trigger] l2.rooms[j].entity by {
            assert(l2.rooms[i].entity == self.rooms[i].entity);
            assert(l2.rooms[j].entity == self.rooms[j].entity);
        };
        assert forall|i: int, m: int, j: int, n: int|
            0 <= i < l2.rooms.len() && 0 <= m < l2.rooms[i].members.len() && 0 <= j
                < l2.rooms.len() && 0 <= n < l2.rooms[j].members.len() && (i != j || m != n)
                implies #[trigger] l2.rooms[i].members[m].key != #[trigger] l2.rooms[j].members[n].key
            && l2.rooms[i].members[m].entity != l2.rooms[j].members[n].entity by {
            let om = if i == ri && m >= mi { m + 1 } else { m };
            let on = if j == ri && n >= mi { n + 1 } else { n };
            assert(l2.rooms[i].members[m] == self.rooms[i].members[om]);
            assert(l2.rooms[j].members[n] == self.rooms[j].members[on]);
            assert(self.rooms[i].members[om].key != self.rooms[j].members[on].key);
        };
        assert forall|i: int|
            0 <= i < l2.rooms.len() implies #[trigger] l2.rooms[i].members.len() >= 1 && (exists|
                m: int,
            | 0 <= m < l2.rooms[i].members.len() && l2.rooms[i].members[m].entity
                == l2.rooms[i].owner) by {
            if i != ri {
                assert(l2.rooms[i] == self.rooms[i]);
                assert(self.rooms[i].members.len() >= 1);
                let m = choose|m: int|
                    0 <= m < self.rooms[i].members.len() && self.rooms[i].members[m].entity
                        == self.rooms[i].owner;
                assert(l2.rooms[i].members[m].entity == l2.rooms[i].owner);
            } else {
                if r.members[mi].entity == r.owner {
                    assert(l2.rooms[i].members[0].entity == l2.rooms[i].owner);
                } else {
                    assert(self.rooms[ri].members.len() >= 1);
                    let om = choose|m: int|
                        0 <= m < r.members.len() && r.members[m].entity == r.owner;
                    assert(om != mi);
                    let nm = if om < mi { om } else { om - 1 };
                    assert(rest[nm] == r.members[om]);
                    assert(l2.rooms[i].members[nm].entity == l2.rooms[i].owner);
                }
            }
        };
        assert forall|i: int, m: int|
            0 <= i < l2.rooms.len() && 0 <= m < l2.rooms[i].members.len() implies l2.registered(
            #[trigger] l2.rooms[i].members[m].key,
        ) by {
            let om = if i == ri && m >= mi { m + 1 } else { m };
            let k = self.rooms[i].members[om].key;
            assert(l2.rooms[i].members[m].key == k);
            assert(self.registered(k));
            let u = self.user_index(k);
            assert(l2.users[u].key == k);
        };
        assert forall|i: int, m: int, u: int|
            0 <= i < l2.rooms.len() && 0 <= m < l2.rooms[i].members.len() && 0 <= u
                < l2.users.len() && #[trigger] l2.rooms[i].members[m].key == #[trigger] l2.users[u].key
            implies l2.rooms[i].members[m].back.user == l2.users[u].entity by {
            let om = if i == ri && m >= mi { m + 1 } else { m };
            assert(l2.rooms[i].members[m] == self.rooms[i].members[om]);
        };
        assert(l2.ids_issued()) by {
            assert forall|i: int|
                0 <= i < l2.rooms.len() implies #[trigger] l2.rooms[i].entity < l2.next_entity by {
                assert(l2.rooms[i].entity == self.rooms[i].entity);
            };
            assert forall|i: int, m: int|
                0 <= i < l2.rooms.len() && 0 <= m < l2.rooms[i].members.len()
                    implies #[trigger] l2.rooms[i].members[m].entity < l2.next_entity by {
                let om = if i == ri && m >= mi { m + 1 } else { m };
                assert(l2.rooms[i].members[m] == self.rooms[i].members[om]);
            };
        };
        assert(l2.ids_disjoint()) by {
            assert forall|u: int, i: int|
                0 <= u < l2.users.len() && 0 <= i < l2.rooms.len() implies #[trigger] l2.users[u].entity
                != #[trigger] l2.rooms[i].entity by {
                assert(l2.rooms[i].entity == self.rooms[i].entity);
            };
            assert forall|u: int, i: int, m: int|
                0 <= u < l2.users.len() && 0 <= i < l2.rooms.len() && 0 <= m
                    < l2.rooms[i].members.len() implies #[trigger] l2.users[u].entity
                != #[trigger] l2.rooms[i].members[m].entity by {
                let om = if i == ri && m >= mi { m + 1 } else { m };
                assert(l2.rooms[i].members[m] == self.rooms[i].members[om]);
            };
            assert forall|j: int, i: int, m: int|
                0 <= j < l2.rooms.len() && 0 <= i < l2.rooms.len() && 0 <= m
                    < l2.rooms[i].members.len() implies #[trigger] l2.rooms[j].entity
                != #[trigger] l2.rooms[i].members[m].entity by {
                let om = if i == ri && m >= mi { m + 1 } else { m };
                assert(l2.rooms[i].members[m] == self.rooms[i].members[om]);
                assert(l2.rooms[j].entity == self.rooms[j].entity);
            };
        };
    }

    /// Disconnection preserves the invariant and erases the key entirely:
    /// afterwards it is neither registered nor seated anywhere.
    pub proof fn lemma_clear_wf(self, key: u64)
        requires
            self.wf(),
        ensures
            self.clear_t(key).wf(),
            !self.clear_t(key).registered(key),
            !self.clear_t(key).in_room(key),
            self.clear_t(key).next_entity == self.next_entity,
    {
        self.lemma_leave_wf(key);
        let l1 = self.leave_t(key);
        let l2 = self.clear_t(key);
        if !l1.registered(key) {
        } else {
            let ui = l1.user_index(key);
            assert(0 <= ui < l1.users.len() && l1.users[ui].key == key);
            l1.users.remove_ensures(ui);
            assert forall|u: int|
                0 <= u < l2.users.len() implies #[trigger] l2.users[u] == (if u < ui {
                l1.users[u]
            } else {
                l1.users[u + 1]
            }) by {}
            assert forall|u: int| 0 <= u < l2.users.len() implies #[trigger] l2.users[u].key
                != key by {
                let ou = if u < ui { u } else { u + 1 };
                if ou != ui {
                    assert(l1.users[ou].key != l1.users[ui].key);
                }
            };
            if l2.registered(key) {
                let u = l2.user_index(key);
                assert(l2.users[u].key == key);
                assert(false);
            }
            l1.lemma_not_in_room(key);
            assert forall|i: int, j: int| 0 <= i < j < l2.users.len() implies l2.users[i].key
                != l2.users[j].key && l2.users[i].entity != l2.users[j].entity by {
                let oi = if i < ui { i } else { i + 1 };
                let oj = if j < ui { j } else { j + 1 };
                assert(l2.users[i] == l1.users[oi]);
                assert(l2.users[j] == l1.users[oj]);
                assert(l1.users[oi].key != l1.users[oj].key);
            };
            assert forall|i: int, m: int|
                0 <= i < l2.rooms.len() && 0 <= m < l2.rooms[i].members.len() implies l2.registered(
                #[trigger] l2.rooms[i].members[m].key,
            ) by {
                let k = l1.rooms[i].members[m].key;
                assert(l1.registered(k));
                let ou = l1.user_index(k);
                assert(l1.users[ou].key == k);
                assert(k != key);
                assert(ou != ui);
                let nu = if ou < ui { ou } else { ou - 1 };
                assert(l2.users[nu] == l1.users[ou]);
                assert(l2.users[nu].key == k);
            };
            assert forall|i: int, m: int, u: int|
                0 <= i < l2.rooms.len() && 0 <= m < l2.rooms[i].members.len() && 0 <= u
                    < l2.users.len() && #[trigger] l2.rooms[i].members[m].key == #[trigger] l2.users[u].key
                implies l2.rooms[i].members[m].back.user == l2.users[u].entity by {
                let ou = if u < ui { u } else { u + 1 };
                assert(l2.users[u] == l1.users[ou]);
            };
            assert(l2.ids_issued()) by {
                assert forall|u: int| 0 <= u < l2.users.len() implies #[trigger] l2.users[u].entity
                    < l2.next_entity by {
                    let ou = if u < ui { u } else { u + 1 };
                    assert(l2.users[u] == l1.users[ou]);
                };
            };
            assert(l2.ids_disjoint()) by {
                assert forall|u: int, i: int|
                    0 <= u < l2.users.len() && 0 <= i < l2.rooms.len()
                        implies #[trigger] l2.users[u].entity != #[trigger] l2.rooms[i].entity by {
                    let ou = if u < ui { u } else { u + 1 };
                    assert(l2.users[u] == l1.users[ou]);
                };
                assert forall|u: int, i: int, m: int|
                    0 <= u < l2.users.len() && 0 <= i < l2.rooms.len() && 0 <= m
                        < l2.rooms[i].members.len() implies #[trigger] l2.users[u].entity
                    != #[trigger] l2.rooms[i].members[m].entity by {
                    let ou = if u < ui { u } else { u + 1 };
                    assert(l2.users[u] == l1.users[ou]);
                };
            };
            assert(l2.wf());
        }
    }

    /// In a state with pairwise distinct room entities, any registry index
    /// whose room carries `room` is the one `room_index_of_entity` denotes.
    pub proof fn lemma_room_entity_is(self, room: u64, i: int)
        requires
            self.rooms_distinct(),
            0 <= i < self.rooms.len(),
            self.rooms[i].entity == room,
        ensures
            self.has_room_entity(room),
            self.room_index_of_entity(room) == i,
    {
        assert(self.has_room_entity(room));
        let j = self.room_index_of_entity(room);
        if i < j {
            assert(self.rooms[i].entity != self.rooms[j].entity);
        } else if j < i {
            assert(self.rooms[j].entity != self.rooms[i].entity);
        }
    }
}

} // verus!
