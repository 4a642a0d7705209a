//! System-wide laws of the lobby model.
//!
//! Every executable operation promises `wf` of the state it leaves behind
//! and pins that state to a transition function, so each law below holds
//! of every state a [`crate::lobby::Lobby`] can reach through its public
//! operations.

use crate::model::LobbyV;
use vstd::prelude::*;

verus! {

/// A registered user sits in exactly one place: either in the unassigned
/// pool or in a single room, never both and never neither; and within
/// that room it holds a single member slot.
pub proof fn lemma_user_in_one_place(l: LobbyV, key: u64)
    requires
        l.wf(),
        l.registered(key),
    ensures
        l.unassigned(key) <==> !l.in_room(key),
        forall|i: int, j: int|
            0 <= i < l.rooms.len() && #[trigger] l.rooms[i].has_key(key) && 0 <= j < l.rooms.len()
                && #[trigger] l.rooms[j].has_key(key) ==> i == j,
        forall|i: int, m: int, n: int|
            0 <= i < l.rooms.len() && 0 <= m < l.rooms[i].members.len() && 0 <= n
                < l.rooms[i].members.len() && #[trigger] l.rooms[i].members[m].key == key
                && #[trigger] l.rooms[i].members[n].key == key ==> m == n,
{
    assert forall|i: int, j: int|
        0 <= i < l.rooms.len() && #[trigger] l.rooms[i].has_key(key) && 0 <= j < l.rooms.len()
            && #[trigger] l.rooms[j].has_key(key) implies i == j by {
        let m = choose|m: int| 0 <= m < l.rooms[i].members.len() && l.rooms[i].members[m].key == key;
        let n = choose|n: int| 0 <= n < l.rooms[j].members.len() && l.rooms[j].members[n].key == key;
        if i != j {
            assert(l.rooms[i].members[m].key != l.rooms[j].members[n].key);
        }
    };
    assert forall|i: int, m: int, n: int|
        0 <= i < l.rooms.len() && 0 <= m < l.rooms[i].members.len() && 0 <= n
            < l.rooms[i].members.len() && #[trigger] l.rooms[i].members[m].key == key
            && #[trigger] l.rooms[i].members[n].key == key implies m == n by {
        if m != n {
            assert(l.rooms[i].members[m].key != l.rooms[i].members[n].key);
        }
    };
}

/// Every live room is occupied, and exactly one of its member slots
/// carries the owner marker.
pub proof fn lemma_owner_unique(l: LobbyV, i: int)
    requires
        l.wf(),
        0 <= i < l.rooms.len(),
    ensures
        l.rooms[i].members.len() >= 1,
        exists|m: int|
            0 <= m < l.rooms[i].members.len() && #[trigger] l.rooms[i].members[m].entity
                == l.rooms[i].owner,
        forall|m: int, n: int|
            0 <= m < l.rooms[i].members.len() && 0 <= n < l.rooms[i].members.len()
                && #[trigger] l.rooms[i].members[m].entity == l.rooms[i].owner
                && #[trigger] l.rooms[i].members[n].entity == l.rooms[i].owner ==> m == n,
{
    assert(l.rooms[i].members.len() >= 1);
    assert forall|m: int, n: int|
        0 <= m < l.rooms[i].members.len() && 0 <= n < l.rooms[i].members.len()
            && #[trigger] l.rooms[i].members[m].entity == l.rooms[i].owner
            && #[trigger] l.rooms[i].members[n].entity == l.rooms[i].owner implies m == n by {
        if m != n {
            assert(l.rooms[i].members[m].key != l.rooms[i].members[n].key);
            assert(l.rooms[i].members[m].entity != l.rooms[i].members[n].entity);
        }
    };
}

/// Disconnecting the same user twice ends in the very state that
/// disconnecting once reaches.
pub proof fn lemma_disconnect_idempotent(l: LobbyV, key: u64)
    requires
        l.wf(),
    ensures
        l.clear_t(key).clear_t(key) == l.clear_t(key),
        l.clear_t(key).leave_successor(key) == None::<u64>,
{
    l.lemma_clear_wf(key);
    let l1 = l.clear_t(key);
    assert(l1.leave_t(key) == l1);
    assert(l1.clear_t(key) == l1);
}

/// Hosting a room and leaving it again as its sole member restores the
/// registry and the directory: the tidy pass removes the emptied room,
/// and nobody is promoted.
pub proof fn lemma_host_then_leave_restores(l: LobbyV, key: u64, name: Seq<char>)
    requires
        l.wf(),
        l.unassigned(key),
        l.next_entity <= u64::MAX - 2,
    ensures
        l.host_t(key, name).leave_t(key).rooms == l.rooms,
        l.host_t(key, name).leave_t(key).users == l.users,
        l.host_t(key, name).leave_successor(key) == None::<u64>,
{
    l.lemma_host_wf(key, name);
    let l1 = l.host_t(key, name);
    let len = l.rooms.len() as int;
    assert(l1.rooms[len].members[0].key == key);
    l1.lemma_member_slot_is(key, len, 0);
    let rest = l1.rooms[len].members.remove(0);
    assert(rest.len() == 0);
    assert(l1.leave_t(key).rooms == l1.rooms.remove(len));
    assert(l1.rooms.remove(len) =~= l.rooms);
}

} // verus!
