//! The executable lobby: user directory, room registry and the operations
//! the dispatcher drives them with.

use crate::model::{occupied_pred, LobbyV, Member, RoomV, UserV};
use crate::protocol::{LobbyError, Name, Player};
use vstd::prelude::*;

verus! {

/// A registered user as stored in the directory.
#[derive(Clone, Debug)]
pub struct UserEntry {
    pub key: u64,
    pub entity: u64,
    pub name: Name,
}

impl View for UserEntry {
    type V = UserV;

    open spec fn view(&self) -> UserV {
        UserV { key: self.key, entity: self.entity, name: self.name@ }
    }
}

/// A live room as stored in the registry.
#[derive(Clone, Debug)]
pub struct RoomEntry {
    pub entity: u64,
    pub name: Name,
    pub members: Vec<Member>,
    pub owner: u64,
}

impl View for RoomEntry {
    type V = RoomV;

    open spec fn view(&self) -> RoomV {
        RoomV { entity: self.entity, name: self.name@, members: self.members@, owner: self.owner }
    }
}

/// The authoritative session state: who is registered, which rooms are
/// live, who sits where, and the next never-yet-issued entity id.
#[derive(Debug)]
pub struct Lobby {
    pub(crate) users: Vec<UserEntry>,
    pub(crate) rooms: Vec<RoomEntry>,
    pub(crate) next_entity: u64,
}

impl View for Lobby {
    type V = LobbyV;

    open(crate) spec fn view(&self) -> LobbyV {
        LobbyV {
            users: self.users@.map_values(|u: UserEntry| u@),
            rooms: self.rooms@.map_values(|r: RoomEntry| r@),
            next_entity: self.next_entity,
        }
    }
}

impl Lobby {
    /// Shorthand for the model invariant on the current state.
    pub open spec fn wf(&self) -> bool {
        self@.wf()
    }

    /// A fresh lobby: nobody registered, no rooms, no ids issued.
    pub fn new() -> (l: Lobby)
        ensures
            l@ == LobbyV::empty(),
            l.wf(),
    {
        let l = Lobby { users: Vec::new(), rooms: Vec::new(), next_entity: 0 };
        proof {
            assert(l@ =~~= LobbyV::empty());
        }
        l
    }

    /// The directory index holding `user_key`, if any.
    pub(crate) fn find_user(&self, user_key: u64) -> (r: Option<usize>)
        ensures
            match r {
                Some(i) => i < self.users.len() && self@.users[i as int].key == user_key,
                None => !self@.registered(user_key),
            },
    {
        let mut i: usize = 0;
        while i < self.users.len()
            invariant
                i <= self.users.len(),
                forall|n: int| 0 <= n < i ==> self@.users[n].key != user_key,
            decreases self.users.len() - i,
        {
            if self.users[i].key == user_key {
                return Some(i);
            }
            i += 1;
        }
        None
    }

    /// Room and member indices of the slot `user_key` occupies, if any.
    pub(crate) fn locate(&self, user_key: u64) -> (r: Option<(usize, usize)>)
        ensures
            match r {
                Some((i, m)) => i < self.rooms.len() && m < self@.rooms[i as int].members.len()
                    && self@.rooms[i as int].members[m as int].key == user_key,
                None => !self@.in_room(user_key),
            },
    {
        let mut i: usize = 0;
        while i < self.rooms.len()
            invariant
                i <= self.rooms.len(),
                forall|n: int| 0 <= n < i ==> !self@.rooms[n].has_key(user_key),
            decreases self.rooms.len() - i,
        {
            let room = &self.rooms[i];
            let mut m: usize = 0;
            while m < room.members.len()
                invariant
                    m <= room.members.len(),
                    room == self.rooms@[i as int],
                    i < self.rooms.len(),
                    forall|n: int| 0 <= n < m ==> self@.rooms[i as int].members[n].key != user_key,
                decreases room.members.len() - m,
            {
                if room.members[m].key == user_key {
                    return Some((i, m));
                }
                m += 1;
            }
            i += 1;
        }
        None
    }

    /// Create a user for `user_key` and seat it in the unassigned pool.
    ///
    /// Returns the new user entity, or `AlreadyRegistered` (and changes
    /// nothing) when the directory already holds the key.
    pub fn register(&mut self, user_key: u64, name: Name) -> (r: Result<u64, LobbyError>)
        requires
            old(self).wf(),
            old(self)@.next_entity < u64::MAX,
        ensures
            final(self).wf(),
            final(self)@ == old(self)@.register_t(user_key, name@),
            r is Ok <==> !old(self)@.registered(user_key),
            r matches Ok(e) ==> e == old(self)@.next_entity && final(self)@.registered(user_key),
            r is Err ==> r == Err::<u64, LobbyError>(LobbyError::AlreadyRegistered),
    {
        let ghost nv = name@;
        proof {
            old(self)@.lemma_register_wf(user_key, nv);
        }
        match self.find_user(user_key) {
            Some(_) => {
                proof {
                    assert(self@.registered(user_key));
                }
                Err(LobbyError::AlreadyRegistered)
            },
            None => {
                let e = self.next_entity;
                self.next_entity = e + 1;
                self.users.push(UserEntry { key: user_key, entity: e, name });
                proof {
                    assert(self@.users =~= old(self)@.users.push(
                        UserV { key: user_key, entity: e, name: nv },
                    ));
                    assert(self@ =~~= old(self)@.register_t(user_key, nv));
                }
                Ok(e)
            },
        }
    }

    /// The registry index of the room with display entity `room`, if any.
    fn find_room_entity(&self, room: u64) -> (r: Option<usize>)
        ensures
            match r {
                Some(i) => i < self.rooms.len() && self@.rooms[i as int].entity == room,
                None => !self@.has_room_entity(room),
            },
    {
        let mut i: usize = 0;
        while i < self.rooms.len()
            invariant
                i <= self.rooms.len(),
                forall|n: int| 0 <= n < i ==> self@.rooms[n].entity != room,
            decreases self.rooms.len() - i,
        {
            if self.rooms[i].entity == room {
                return Some(i);
            }
            i += 1;
        }
        None
    }

    /// Open a room named `name` hosted by `user_key`'s user.
    ///
    /// Returns the new player and room entities, in that order.  The new
    /// room's sole member is the host, marked as its owner.  Fails with
    /// `NotRegistered` (and changes nothing) unless the key has a user in
    /// the unassigned pool.
    pub fn spawn_room(&mut self, user_key: u64, name: Name) -> (r: Result<
        (u64, u64),
        LobbyError,
    >)
        requires
            old(self).wf(),
            old(self)@.next_entity <= u64::MAX - 2,
        ensures
            final(self).wf(),
            final(self)@ == old(self)@.host_t(user_key, name@),
            r is Ok <==> old(self)@.unassigned(user_key),
            r matches Ok((player, room)) ==> player == old(self)@.next_entity + 1 && room
                == old(self)@.next_entity && final(self)@.in_room(user_key),
            r is Err ==> r == Err::<(u64, u64), LobbyError>(LobbyError::NotRegistered)
                && final(self)@ == old(self)@,
    {
        let ghost nv = name@;
        proof {
            old(self)@.lemma_host_wf(user_key, nv);
        }
        let ui = match self.find_user(user_key) {
            None => {
                return Err(LobbyError::NotRegistered);
            },
            Some(ui) => ui,
        };
        proof {
            self@.lemma_user_index_is(user_key, ui as int);
        }
        if self.locate(user_key).is_some() {
            proof {
                assert(self@.in_room(user_key));
            }
            return Err(LobbyError::NotRegistered);
        }
        let user_entity = self.users[ui].entity;
        let room_entity = self.next_entity;
        let player_entity = room_entity + 1;
        self.next_entity = room_entity + 2;
        let mut members: Vec<Member> = Vec::new();
        members.push(Member { key: user_key, entity: player_entity, back: Player { user: user_entity } });
        let ghost mv = members@;
        self.rooms.push(RoomEntry { entity: room_entity, name, members, owner: player_entity });
        proof {
            let host = Member {
                key: user_key,
                entity: player_entity,
                back: Player { user: user_entity },
            };
            assert(mv =~= seq![host]);
            assert(self@.rooms =~= old(self)@.rooms.push(
                RoomV { entity: room_entity, name: nv, members: mv, owner: player_entity },
            ));
            assert(self@ =~~= old(self)@.host_t(user_key, nv));
        }
        Ok((player_entity, room_entity))
    }

    /// Seat `user_key`'s user in the room whose display entity is `room`.
    ///
    /// Returns the new player entity.  Fails with `RoomNotFound` when the
    /// reference was issued but no longer resolves, `InvalidReference` when
    /// it cannot have been issued at all, and `NotRegistered` when the key
    /// has no user in the unassigned pool; a failure changes nothing.
    pub fn enter_room(&mut self, user_key: u64, room: u64) -> (r: Result<u64, LobbyError>)
        requires
            old(self).wf(),
            old(self)@.next_entity < u64::MAX,
        ensures
            final(self).wf(),
            final(self)@ == old(self)@.join_t(user_key, room),
            r is Ok <==> old(self)@.has_room_entity(room) && old(self)@.unassigned(user_key),
            r matches Ok(player) ==> player == old(self)@.next_entity && final(self)@.in_room(
                user_key,
            ),
            r is Err ==> final(self)@ == old(self)@,
            r == Err::<u64, LobbyError>(LobbyError::RoomNotFound) <==> !old(self)@.has_room_entity(
                room,
            ) && room < old(self)@.next_entity,
            r == Err::<u64, LobbyError>(LobbyError::InvalidReference)
                <==> !old(self)@.has_room_entity(room) && room >= old(self)@.next_entity,
            r == Err::<u64, LobbyError>(LobbyError::NotRegistered) <==> old(self)@.has_room_entity(
                room,
            ) && !old(self)@.unassigned(user_key),
    {
        proof {
            old(self)@.lemma_join_wf(user_key, room);
        }
        let ri = match self.find_room_entity(room) {
            None => {
                if room < self.next_entity {
                    return Err(LobbyError::RoomNotFound);
                } else {
                    return Err(LobbyError::InvalidReference);
                }
            },
            Some(ri) => ri,
        };
        proof {
            self@.lemma_room_entity_is(room, ri as int);
        }
        let ui = match self.find_user(user_key) {
            None => {
                return Err(LobbyError::NotRegistered);
            },
            Some(ui) => ui,
        };
        proof {
            self@.lemma_user_index_is(user_key, ui as int);
        }
        if self.locate(user_key).is_some() {
            proof {
                assert(self@.in_room(user_key));
            }
            return Err(LobbyError::NotRegistered);
        }
        let user_entity = self.users[ui].entity;
        let player_entity = self.next_entity;
        self.next_entity = player_entity + 1;
        let joiner = Member { key: user_key, entity: player_entity, back: Player { user: user_entity } };
        let rm = room_mut(&mut self.rooms, ri);
        rm.members.push(joiner);
        proof {
            let ghost old_r = old(self)@.rooms[ri as int];
            assert(self@.rooms =~= old(self)@.rooms.update(
                ri as int,
                RoomV {
                    entity: old_r.entity,
                    name: old_r.name,
                    members: old_r.members.push(joiner),
                    owner: old_r.owner,
                },
            ));
            assert(self@ =~~= old(self)@.join_t(user_key, room));
        }
        Ok(player_entity)
    }

    /// The tidy pass: drop every room whose membership is empty.  Runs
    /// after each operation that can shrink a room, never after one that
    /// only adds members.
    fn tidy(&mut self)
        ensures
            final(self)@ == old(self)@.tidy_t(),
    {
        let ghost orig = self@.rooms;
        let ghost pred = occupied_pred();
        let mut i: usize = 0;
        let ghost mut j: int = 0;
        proof {
            assert(orig.subrange(0, 0).filter(pred) =~= Seq::<RoomV>::empty()) by {
                reveal(Seq::filter);
                assert(orig.subrange(0, 0) =~= Seq::<RoomV>::empty());
            };
            assert(orig.subrange(0, orig.len() as int) =~= orig);
        }
        while i < self.rooms.len()
            invariant
                0 <= j <= orig.len(),
                i as int == orig.subrange(0, j).filter(pred).len(),
                self@.rooms == orig.subrange(0, j).filter(pred) + orig.subrange(
                    j,
                    orig.len() as int,
                ),
                self@.users == old(self)@.users,
                self@.next_entity == old(self)@.next_entity,
                pred == occupied_pred(),
            decreases orig.len() - j,
        {
            proof {
                assert(self@.rooms[i as int] == orig[j]);
                assert(orig.subrange(0, j + 1).drop_last() =~= orig.subrange(0, j));
                assert(orig.subrange(0, j + 1).last() == orig[j]);
                reveal(Seq::filter);
            }
            if self.rooms[i].members.len() == 0 {
                let ghost pre = self@.rooms;
                self.rooms.remove(i);
                proof {
                    assert(!pred(orig[j]));
                    assert(orig.subrange(0, j + 1).filter(pred) == orig.subrange(0, j).filter(
                        pred,
                    ));
                    assert(self@.rooms =~= pre.remove(i as int));
                    assert(self@.rooms =~= orig.subrange(0, j + 1).filter(pred) + orig.subrange(
                        j + 1,
                        orig.len() as int,
                    ));
                    j = j + 1;
                }
            } else {
                i += 1;
                proof {
                    assert(pred(orig[j]));
                    assert(orig.subrange(0, j + 1).filter(pred) == orig.subrange(0, j).filter(
                        pred,
                    ).push(orig[j]));
                    assert(self@.rooms =~= orig.subrange(0, j + 1).filter(pred) + orig.subrange(
                        j + 1,
                        orig.len() as int,
                    ));
                    j = j + 1;
                }
            }
        }
        proof {
            assert(j == orig.len()) by {
                if j < orig.len() {
                    assert(orig.subrange(j, orig.len() as int).len() > 0);
                }
            };
            assert(orig.subrange(0, j) =~= orig);
            assert(orig.subrange(j, orig.len() as int) =~= Seq::<RoomV>::empty());
            assert(self@.rooms =~= orig.filter(pred));
            assert(self@ =~~= old(self)@.tidy_t());
        }
    }

    /// Unseat `user_key`'s user from its room and return it to the
    /// unassigned pool; a no-op when the user occupies no room.
    ///
    /// When the departing player owned a still-occupied room, ownership
    /// migrates to the earliest-seated remaining member and that member's
    /// player entity is returned so the caller can attach the owner marker.
    /// An emptied room is tidied away.
    pub fn leave_room(&mut self, user_key: u64) -> (r: Option<u64>)
        requires
            old(self).wf(),
        ensures
            final(self).wf(),
            final(self)@ == old(self)@.leave_t(user_key),
            r == old(self)@.leave_successor(user_key),
            !final(self)@.in_room(user_key),
            final(self)@.users == old(self)@.users,
            final(self)@.next_entity == old(self)@.next_entity,
    {
        proof {
            old(self)@.lemma_leave_wf(user_key);
        }
        let (ri, mi) = match self.locate(user_key) {
            None => {
                return None;
            },
            Some(x) => x,
        };
        proof {
            self@.lemma_member_slot_is(user_key, ri as int, mi as int);
        }
        let rm = room_mut(&mut self.rooms, ri);
        let departed = rm.members.remove(mi);
        let mut promoted: Option<u64> = None;
        if rm.members.len() > 0 && departed.entity == rm.owner {
            let successor = rm.members[0].entity;
            rm.owner = successor;
            promoted = Some(successor);
        }
        let ghost mid = LobbyV {
            users: old(self)@.users,
            rooms: old(self)@.rooms.update(
                ri as int,
                RoomV {
                    entity: old(self)@.rooms[ri as int].entity,
                    name: old(self)@.rooms[ri as int].name,
                    members: old(self)@.rooms[ri as int].members.remove(mi as int),
                    owner: if old(self)@.rooms[ri as int].members[mi as int].entity == old(
                        self,
                    )@.rooms[ri as int].owner && old(self)@.rooms[ri as int].members.remove(
                        mi as int,
                    ).len() > 0 {
                        old(self)@.rooms[ri as int].members.remove(mi as int)[0].entity
                    } else {
                        old(self)@.rooms[ri as int].owner
                    },
                },
            ),
            next_entity: old(self)@.next_entity,
        };
        proof {
            assert(self@ =~~= mid);
        }
        self.tidy();
        proof {
            let l = old(self)@;
            let r_old = l.rooms[ri as int];
            let rest = r_old.members.remove(mi as int);
            if rest.len() == 0 {
                assert forall|n: int|
                    0 <= n < mid.rooms.len() && n != ri as int implies occupied_pred()(
                    #[trigger] mid.rooms[n],
                ) by {
                    assert(mid.rooms[n] == l.rooms[n]);
                    assert(l.rooms[n].members.len() >= 1);
                };
                crate::model::lemma_filter_skip_one(mid.rooms, occupied_pred(), ri as int);
                assert(self@.rooms == mid.rooms.remove(ri as int));
                assert(self@.rooms =~= l.rooms.update(
                    ri as int,
                    mid.rooms[ri as int],
                ).remove(ri as int));
                assert(l.rooms.update(ri as int, mid.rooms[ri as int]).remove(ri as int) =~= l.rooms.remove(ri as int));
            } else {
                assert forall|n: int| 0 <= n < mid.rooms.len() implies occupied_pred()(
                    #[trigger] mid.rooms[n],
                ) by {
                    if n != ri as int {
                        assert(mid.rooms[n] == l.rooms[n]);
                        assert(l.rooms[n].members.len() >= 1);
                    }
                };
                crate::model::lemma_filter_all_true(mid.rooms, occupied_pred());
            }
            assert(self@ =~~= l.leave_t(user_key));
        }
        promoted
    }

    /// Tear the user down completely on disconnect: leave any room exactly
    /// as [`Lobby::leave_room`] does, then drop the user from the
    /// directory (rather than returning it to the unassigned pool).
    /// Idempotent: clearing an unknown key changes nothing.
    pub fn clear_user(&mut self, user_key: u64) -> (r: Option<u64>)
        requires
            old(self).wf(),
        ensures
            final(self).wf(),
            final(self)@ == old(self)@.clear_t(user_key),
            r == old(self)@.leave_successor(user_key),
            !final(self)@.registered(user_key),
            !final(self)@.in_room(user_key),
    {
        proof {
            old(self)@.lemma_clear_wf(user_key);
        }
        let promoted = self.leave_room(user_key);
        let ghost l1 = old(self)@.leave_t(user_key);
        match self.find_user(user_key) {
            Some(ui) => {
                proof {
                    self@.lemma_user_index_is(user_key, ui as int);
                }
                self.users.remove(ui);
                proof {
                    assert(self@.users =~= l1.users.remove(l1.user_index(user_key)));
                    assert(self@ =~~= old(self)@.clear_t(user_key));
                }
            },
            None => {
                proof {
                    assert(self@ =~~= old(self)@.clear_t(user_key));
                }
            },
        }
        promoted
    }

    /// The user entity registered for `user_key`, if any.  Pure read.
    pub fn get_user(&self, user_key: u64) -> (r: Option<u64>)
        requires
            self.wf(),
        ensures
            r is Some <==> self@.registered(user_key),
            r matches Some(user) ==> user == self@.user_entity(user_key),
    {
        match self.find_user(user_key) {
            Some(i) => {
                proof {
                    self@.lemma_user_index_is(user_key, i as int);
                }
                Some(self.users[i].entity)
            },
            None => None,
        }
    }

    /// Is `user_key` registered and waiting in the unassigned pool?
    pub fn is_unassigned(&self, user_key: u64) -> (r: bool)
        ensures
            r == self@.unassigned(user_key),
    {
        match self.find_user(user_key) {
            None => false,
            Some(_) => {
                proof {
                    assert(self@.registered(user_key));
                }
                self.locate(user_key).is_none()
            },
        }
    }

    /// How many rooms are live.
    pub fn room_count(&self) -> (r: usize)
        ensures
            r == self@.rooms.len(),
    {
        self.rooms.len()
    }

    /// The display entities of the live rooms, in registry order.
    pub fn room_entities(&self) -> (r: Vec<u64>)
        ensures
            r@.len() == self@.rooms.len(),
            forall|n: int| 0 <= n < r@.len() ==> r@[n] == self@.rooms[n].entity,
    {
        let mut out: Vec<u64> = Vec::new();
        let mut i: usize = 0;
        while i < self.rooms.len()
            invariant
                i <= self.rooms.len(),
                out@.len() == i,
                forall|n: int| 0 <= n < i ==> out@[n] == self@.rooms[n].entity,
            decreases self.rooms.len() - i,
        {
            out.push(self.rooms[i].entity);
            i += 1;
        }
        out
    }

    /// The display entity of the first room listed under `name`, if any.
    pub fn find_room(&self, name: &Name) -> (r: Option<u64>)
        ensures
            r is Some <==> exists|i: int|
                0 <= i < self@.rooms.len() && self@.rooms[i].name == name@,
            r matches Some(room) ==> exists|i: int|
                0 <= i < self@.rooms.len() && self@.rooms[i].name == name@
                    && self@.rooms[i].entity == room,
    {
        let mut i: usize = 0;
        while i < self.rooms.len()
            invariant
                i <= self.rooms.len(),
                forall|n: int| 0 <= n < i ==> self@.rooms[n].name != name@,
            decreases self.rooms.len() - i,
        {
            if self.rooms[i].name.name == name.name {
                proof {
                    assert(self@.rooms[i as int].name == name@);
                }
                return Some(self.rooms[i].entity);
            }
            i += 1;
        }
        None
    }

    /// The owning player entity of the room with display entity `room`.
    pub fn owner_of(&self, room: u64) -> (r: Option<u64>)
        requires
            self.wf(),
        ensures
            r is Some <==> self@.has_room_entity(room),
            r matches Some(owner) ==> owner == self@.rooms[self@.room_index_of_entity(
                room,
            )].owner,
    {
        match self.find_room_entity(room) {
            Some(i) => {
                proof {
                    self@.lemma_room_entity_is(room, i as int);
                }
                Some(self.rooms[i].owner)
            },
            None => None,
        }
    }

    /// How many members sit in the room with display entity `room`.
    pub fn member_count(&self, room: u64) -> (r: Option<usize>)
        requires
            self.wf(),
        ensures
            r is Some <==> self@.has_room_entity(room),
            r matches Some(count) ==> count == self@.rooms[self@.room_index_of_entity(
                room,
            )].members.len(),
    {
        match self.find_room_entity(room) {
            Some(i) => {
                proof {
                    self@.lemma_room_entity_is(room, i as int);
                }
                Some(self.rooms[i].members.len())
            },
            None => None,
        }
    }

    /// Is the id allocator far enough from its ceiling for any single
    /// operation?  Unverified callers test this before registering,
    /// hosting or joining.
    pub fn can_allocate(&self) -> (r: bool)
        ensures
            r == (self@.next_entity <= u64::MAX - 2),
    {
        self.next_entity <= u64::MAX - 2
    }
}

/// A mutable borrow of one room entry, with the registry pinned around it.
fn room_mut(rooms: &mut Vec<RoomEntry>, i: usize) -> (r: &mut RoomEntry)
    requires
        i < old(rooms).len(),
    ensures
        *r == old(rooms)@[i as int],
        final(rooms)@ == old(rooms)@.update(i as int, *final(r)),
{
    &mut rooms[i]
}

} // verus!
