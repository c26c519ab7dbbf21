//! The user and group ids that a room tree mentions.
use vstd::prelude::*;
use crate::nodes::models::{
    lemma_sub_rooms_view, optional_seq, rooms_view, sub_rooms_of, GroupRoomPermission, Room,
    RoomView, UserRoomPermission,
};
use crate::nodes::tree::{lemma_preorder, lemma_preorder_all_take, preorder_all};

verus! {

/// Whether an id is that of a user or of a group.
#[derive(Clone, Copy)]
pub enum IdKind {
    User,
    Group,
}

/// The elements of a list, none where there is no list.
pub open spec fn elements<T>(list: Option<Seq<T>>) -> Seq<T> {
    match list {
        Some(values) => values,
        None => Seq::empty(),
    }
}

/// The ids of one kind that a room mentions: those of its admins first, then
/// those with permissions of their own.
pub open spec fn own_ids(kind: IdKind, room: RoomView) -> Seq<u64> {
    match kind {
        IdKind::User => elements(room.admin_ids) + elements(room.user_permissions).map_values(
            |user: UserRoomPermission| user.id,
        ),
        IdKind::Group => elements(room.admin_group_ids) + elements(
            room.group_permissions,
        ).map_values(|group: GroupRoomPermission| group.id),
    }
}

/// Whether one of the rooms mentions an id.
pub open spec fn is_mentioned(kind: IdKind, rooms: Seq<RoomView>, id: u64) -> bool {
    exists|i: int| 0 <= i < rooms.len() && own_ids(kind, #[trigger] rooms[i]).contains(id)
}

/// Whether each id of a list is smaller than the next.
pub open spec fn is_increasing(ids: Seq<u64>) -> bool {
    forall|i: int, j: int| 0 <= i < j < ids.len() ==> ids[i] < ids[j]
}

/// Whether a list holds exactly the ids that the rooms mention, in increasing
/// order.
pub open spec fn lists_ids(ids: Seq<u64>, kind: IdKind, rooms: Seq<RoomView>) -> bool {
    &&& is_increasing(ids)
    &&& forall|id: u64| #[trigger] ids.contains(id) <==> is_mentioned(kind, rooms, id)
}

/// There is only one list of the ids that the rooms mention.
pub proof fn law_one_list_of_ids(a: Seq<u64>, b: Seq<u64>, kind: IdKind, rooms: Seq<RoomView>)
    requires
        lists_ids(a, kind, rooms),
        lists_ids(b, kind, rooms),
    ensures
        a == b,
{
    assert forall|id: u64| #[trigger] a.contains(id) <==> b.contains(id) by {}
    lemma_same_increasing(a, b);
}

proof fn lemma_same_increasing(a: Seq<u64>, b: Seq<u64>)
    requires
        is_increasing(a),
        is_increasing(b),
        forall|id: u64| #[trigger] a.contains(id) <==> b.contains(id),
    ensures
        a == b,
    decreases a.len(),
{
    if a.len() == 0 {
        if b.len() > 0 {
            assert(b.contains(b[0]));
            assert(a.contains(b[0]));
        }
        assert(a =~= b);
    } else {
        assert(a.contains(a.last()));
        assert(b.contains(a.last()));
        assert(b.contains(b.last()));
        assert(a.contains(b.last()));
        assert(a.last() == b.last());
        let x = a.drop_last();
        let y = b.drop_last();
        assert forall|id: u64| #[trigger] x.contains(id) <==> y.contains(id) by {
            if x.contains(id) {
                let i = choose|i: int| 0 <= i < x.len() && x[i] == id;
                assert(a[i] == id);
                assert(a.contains(id) && id < a.last());
                let j = choose|j: int| 0 <= j < b.len() && b[j] == id;
                assert(y[j] == id);
            }
            if y.contains(id) {
                let i = choose|i: int| 0 <= i < y.len() && y[i] == id;
                assert(b[i] == id);
                assert(b.contains(id) && id < b.last());
                assert(a.contains(id));
                let j = choose|j: int| 0 <= j < a.len() && a[j] == id;
                assert(x[j] == id);
            }
        }
        lemma_same_increasing(x, y);
        assert(a =~= x.push(a.last()));
        assert(b =~= y.push(b.last()));
    }
}

proof fn lemma_mentioned_concat(kind: IdKind, a: Seq<RoomView>, b: Seq<RoomView>, id: u64)
    ensures
        is_mentioned(kind, a + b, id) <==> is_mentioned(kind, a, id) || is_mentioned(kind, b, id),
{
    let both = a + b;
    if is_mentioned(kind, a, id) {
        let i = choose|i: int| 0 <= i < a.len() && own_ids(kind, #[trigger] a[i]).contains(id);
        assert(both[i] == a[i]);
    }
    if is_mentioned(kind, b, id) {
        let i = choose|i: int| 0 <= i < b.len() && own_ids(kind, #[trigger] b[i]).contains(id);
        assert(both[a.len() + i] == b[i]);
    }
    if is_mentioned(kind, both, id) {
        let i = choose|i: int| 0 <= i < both.len() && own_ids(kind, #[trigger] both[i]).contains(id);
        if i < a.len() {
            assert(a[i] == both[i]);
        } else {
            assert(b[i - a.len()] == both[i]);
        }
    }
}

/// Adds an id to an increasing list, unless it is there already.
fn add_id(ids: &mut Vec<u64>, id: u64)
    requires
        is_increasing(old(ids)@),
    ensures
        is_increasing(final(ids)@),
        forall|x: u64| #[trigger] final(ids)@.contains(x) <==> old(ids)@.contains(x) || x == id,
{
    let ghost before = ids@;
    let mut at: usize = 0;
    while at < ids.len() && ids[at] < id
        invariant
            at <= ids.len(),
            ids@ == before,
            forall|j: int| 0 <= j < at ==> ids@[j] < id,
        decreases ids.len() - at,
    {
        at += 1;
    }
    if at < ids.len() && ids[at] == id {
        assert(before.contains(id));
        return;
    }
    ids.insert(at, id);
    proof {
        let after = ids@;
        assert(after == before.insert(at as int, id));
        assert forall|x: u64| #[trigger] after.contains(x) <==> before.contains(x) || x == id by {
            if before.contains(x) {
                let j = choose|j: int| 0 <= j < before.len() && before[j] == x;
                assert(after[if j < at { j } else { j + 1 }] == x);
            }
            if x == id {
                assert(after[at as int] == x);
            }
            if after.contains(x) {
                let j = choose|j: int| 0 <= j < after.len() && after[j] == x;
                if j < at {
                    assert(before[j] == x);
                } else if j > at {
                    assert(before[j - 1] == x);
                }
            }
        }
    }
}

/// Adds the ids of a list.
fn add_ids(list: &Vec<u64>, ids: &mut Vec<u64>)
    requires
        is_increasing(old(ids)@),
    ensures
        is_increasing(final(ids)@),
        forall|x: u64| #[trigger]
            final(ids)@.contains(x) <==> old(ids)@.contains(x) || list@.contains(x),
{
    let ghost before = ids@;
    let mut i: usize = 0;
    assert(list@.take(0) =~= Seq::<u64>::empty());
    while i < list.len()
        invariant
            i <= list.len(),
            is_increasing(ids@),
            forall|x: u64| #[trigger]
                ids@.contains(x) <==> before.contains(x) || list@.take(i as int).contains(x),
        decreases list.len() - i,
    {
        add_id(ids, list[i]);
        proof {
            lemma_contains_push(list@.take(i as int), list@[i as int]);
            assert(list@.take(i + 1) =~= list@.take(i as int).push(list@[i as int]));
        }
        i += 1;
    }
    assert(list@.take(i as int) =~= list@);
}

proof fn lemma_contains_push(list: Seq<u64>, last: u64)
    ensures
        forall|x: u64| #[trigger] list.push(last).contains(x) <==> list.contains(x) || x == last,
{
    assert forall|x: u64| #[trigger] list.push(last).contains(x) <==> list.contains(x) || x
        == last by {
        let longer = list.push(last);
        if list.contains(x) {
            let j = choose|j: int| 0 <= j < list.len() && list[j] == x;
            assert(longer[j] == x);
        }
        if x == last {
            assert(longer[list.len() as int] == x);
        }
    }
}

proof fn lemma_contains_concat(a: Seq<u64>, b: Seq<u64>)
    ensures
        forall|x: u64| #[trigger] (a + b).contains(x) <==> a.contains(x) || b.contains(x),
{
    assert forall|x: u64| #[trigger] (a + b).contains(x) <==> a.contains(x) || b.contains(x) by {
        if a.contains(x) {
            let j = choose|j: int| 0 <= j < a.len() && a[j] == x;
            assert((a + b)[j] == x);
        }
        if b.contains(x) {
            let j = choose|j: int| 0 <= j < b.len() && b[j] == x;
            assert((a + b)[a.len() + j] == x);
        }
    }
}

/// The ids of users with permissions.
fn user_ids(users: &Vec<UserRoomPermission>) -> (ids: Vec<u64>)
    ensures
        ids@ == users@.map_values(|user: UserRoomPermission| user.id),
{
    let mut ids: Vec<u64> = Vec::new();
    let mut i: usize = 0;
    while i < users.len()
        invariant
            i <= users.len(),
            ids@ == users@.take(i as int).map_values(|user: UserRoomPermission| user.id),
        decreases users.len() - i,
    {
        ids.push(users[i].id);
        assert(ids@ =~= users@.take(i + 1).map_values(|user: UserRoomPermission| user.id));
        i += 1;
    }
    assert(users@.take(i as int) =~= users@);
    ids
}

/// The ids of groups with permissions.
fn group_ids(groups: &Vec<GroupRoomPermission>) -> (ids: Vec<u64>)
    ensures
        ids@ == groups@.map_values(|group: GroupRoomPermission| group.id),
{
    let mut ids: Vec<u64> = Vec::new();
    let mut i: usize = 0;
    while i < groups.len()
        invariant
            i <= groups.len(),
            ids@ == groups@.take(i as int).map_values(|group: GroupRoomPermission| group.id),
        decreases groups.len() - i,
    {
        ids.push(groups[i].id);
        assert(ids@ =~= groups@.take(i + 1).map_values(|group: GroupRoomPermission| group.id));
        i += 1;
    }
    assert(groups@.take(i as int) =~= groups@);
    ids
}

/// Adds the ids that a room itself mentions.
fn add_own_ids(kind: IdKind, room: &Room, ids: &mut Vec<u64>)
    requires
        is_increasing(old(ids)@),
    ensures
        is_increasing(final(ids)@),
        forall|x: u64| #[trigger]
            final(ids)@.contains(x) <==> old(ids)@.contains(x) || own_ids(kind, room@).contains(x),
{
    let (admins, others): (&Option<Vec<u64>>, Option<Vec<u64>>) = match kind {
        IdKind::User => (
            &room.admin_ids,
            match &room.user_permissions {
                Some(users) => Some(user_ids(users)),
                None => None,
            },
        ),
        IdKind::Group => (
            &room.admin_group_ids,
            match &room.group_permissions {
                Some(groups) => Some(group_ids(groups)),
                None => None,
            },
        ),
    };
    let ghost first = elements(optional_seq(*admins));
    let ghost second = elements(optional_seq(others));
    proof {
        lemma_contains_concat(first, second);
        assert(own_ids(kind, room@) =~= first + second);
    }
    if let Some(list) = admins {
        add_ids(list, ids);
    }
    if let Some(list) = &others {
        add_ids(list, ids);
    }
}

/// Adds all ids that the rooms of a list and below it mention.
fn add_tree_ids(kind: IdKind, rooms: &Vec<Room>, ids: &mut Vec<u64>)
    requires
        is_increasing(old(ids)@),
    ensures
        is_increasing(final(ids)@),
        forall|x: u64| #[trigger]
            final(ids)@.contains(x) <==> old(ids)@.contains(x) || is_mentioned(
                kind,
                preorder_all(rooms_view(rooms@)),
                x,
            ),
    decreases rooms,
{
    broadcast use lemma_sub_rooms_view;

    let ghost before = ids@;
    let ghost all = rooms_view(rooms@);
    let mut i: usize = 0;
    assert(preorder_all(all.take(0)) =~= Seq::<RoomView>::empty());
    while i < rooms.len()
        invariant
            i <= rooms.len(),
            all == rooms_view(rooms@),
            is_increasing(ids@),
            forall|x: u64| #[trigger]
                ids@.contains(x) <==> before.contains(x) || is_mentioned(
                    kind,
                    preorder_all(all.take(i as int)),
                    x,
                ),
        decreases rooms.len() - i,
    {
        assert(decreases_to!(rooms => rooms@));
        assert(decreases_to!(rooms@ => rooms@[i as int]));
        let room = &rooms[i];
        let ghost so_far = ids@;
        add_own_ids(kind, room, ids);
        let ghost with_own = ids@;
        if let Some(sub_rooms) = &room.sub_rooms {
            assert(room@.sub_rooms == Some(rooms_view(sub_rooms@)));
            add_tree_ids(kind, sub_rooms, ids);
        } else {
            assert(room@.sub_rooms is None);
            assert(preorder_all(sub_rooms_of(room@)) =~= Seq::<RoomView>::empty());
        }
        proof {
            let done = preorder_all(all.take(i as int));
            let one = seq![room@];
            let below = preorder_all(sub_rooms_of(room@));
            lemma_preorder_all_take(all, i as int);
            lemma_preorder(room@);
            assert forall|x: u64| #[trigger]
                ids@.contains(x) <==> before.contains(x) || is_mentioned(
                    kind,
                    preorder_all(all.take(i + 1)),
                    x,
                ) by {
                lemma_mentioned_concat(kind, done, one + below, x);
                lemma_mentioned_concat(kind, one, below, x);
                assert(so_far.contains(x) <==> before.contains(x) || is_mentioned(kind, done, x));
                assert(with_own.contains(x) <==> so_far.contains(x) || own_ids(
                    kind,
                    room@,
                ).contains(x));
                assert(one[0] == room@);
                assert(is_mentioned(kind, one, x) <==> own_ids(kind, room@).contains(x));
            }
        }
        i += 1;
    }
    assert(all.take(i as int) =~= all);
}

/// The ids of one kind that a room tree mentions, each once, in increasing
/// order.
pub fn unique_ids(kind: IdKind, rooms: &Vec<Room>) -> (ids: Vec<u64>)
    ensures
        lists_ids(ids@, kind, preorder_all(rooms_view(rooms@))),
{
    let mut ids: Vec<u64> = Vec::new();
    add_tree_ids(kind, rooms, &mut ids);
    ids
}

// ---------------------------------------------------------------- laws

/// Whether a room names a user: as an admin, or with permissions.
pub open spec fn names_user(room: RoomView, id: u64) -> bool {
    ||| room.admin_ids is Some && room.admin_ids->0.contains(id)
    ||| room.user_permissions is Some && exists|i: int|
        0 <= i < room.user_permissions->0.len() && (#[trigger] room.user_permissions->0[i]).id == id
}

/// Whether a room names a group: as an admin group, or with permissions.
pub open spec fn names_group(room: RoomView, id: u64) -> bool {
    ||| room.admin_group_ids is Some && room.admin_group_ids->0.contains(id)
    ||| room.group_permissions is Some && exists|i: int|
        0 <= i < room.group_permissions->0.len() && (#[trigger] room.group_permissions->0[i]).id
            == id
}

proof fn lemma_own_ids(room: RoomView, id: u64)
    ensures
        own_ids(IdKind::User, room).contains(id) <==> names_user(room, id),
        own_ids(IdKind::Group, room).contains(id) <==> names_group(room, id),
{
    let admins = elements(room.admin_ids);
    let users = elements(room.user_permissions);
    let ids = users.map_values(|user: UserRoomPermission| user.id);
    lemma_contains_concat(admins, ids);
    assert((admins + ids).contains(id) <==> admins.contains(id) || ids.contains(id));
    assert(ids.contains(id) <==> exists|i: int|
        0 <= i < users.len() && (#[trigger] users[i]).id == id) by {
        if ids.contains(id) {
            let i = choose|i: int| 0 <= i < ids.len() && ids[i] == id;
            assert(users[i].id == id);
        }
        if exists|i: int| 0 <= i < users.len() && (#[trigger] users[i]).id == id {
            let i = choose|i: int| 0 <= i < users.len() && (#[trigger] users[i]).id == id;
            assert(ids[i] == id);
        }
    }
    let admin_groups = elements(room.admin_group_ids);
    let groups = elements(room.group_permissions);
    let group_ids = groups.map_values(|group: GroupRoomPermission| group.id);
    lemma_contains_concat(admin_groups, group_ids);
    assert((admin_groups + group_ids).contains(id) <==> admin_groups.contains(id)
        || group_ids.contains(id));
    assert(group_ids.contains(id) <==> exists|i: int|
        0 <= i < groups.len() && (#[trigger] groups[i]).id == id) by {
        if group_ids.contains(id) {
            let i = choose|i: int| 0 <= i < group_ids.len() && group_ids[i] == id;
            assert(groups[i].id == id);
        }
        if exists|i: int| 0 <= i < groups.len() && (#[trigger] groups[i]).id == id {
            let i = choose|i: int| 0 <= i < groups.len() && (#[trigger] groups[i]).id == id;
            assert(group_ids[i] == id);
        }
    }
}

/// A list of ids holds exactly the users, or the groups, that one of the rooms
/// names, each once and the smaller ones first.
pub proof fn law_ids_are_those_named(ids: Seq<u64>, rooms: Seq<RoomView>)
    ensures
        lists_ids(ids, IdKind::User, rooms) ==> (forall|id: u64| #[trigger]
            ids.contains(id) <==> (exists|r: int|
            0 <= r < rooms.len() && names_user(#[trigger] rooms[r], id))),
        lists_ids(ids, IdKind::Group, rooms) ==> (forall|id: u64| #[trigger]
            ids.contains(id) <==> (exists|r: int|
            0 <= r < rooms.len() && names_group(#[trigger] rooms[r], id))),
        lists_ids(ids, IdKind::User, rooms) || lists_ids(ids, IdKind::Group, rooms) ==> (forall|
            i: int,
            j: int,
        |
            0 <= i < j < ids.len() ==> ids[i] < ids[j]),
{
    assert forall|id: u64| #[trigger] is_mentioned(IdKind::User, rooms, id) <==> (exists|r: int|
        0 <= r < rooms.len() && names_user(#[trigger] rooms[r], id)) by {
        if is_mentioned(IdKind::User, rooms, id) {
            let r = choose|r: int|
                0 <= r < rooms.len() && own_ids(IdKind::User, #[trigger] rooms[r]).contains(id);
            lemma_own_ids(rooms[r], id);
        }
        if exists|r: int| 0 <= r < rooms.len() && names_user(#[trigger] rooms[r], id) {
            let r = choose|r: int| 0 <= r < rooms.len() && names_user(#[trigger] rooms[r], id);
            lemma_own_ids(rooms[r], id);
        }
    }
    assert forall|id: u64| #[trigger] is_mentioned(IdKind::Group, rooms, id) <==> (exists|r: int|
        0 <= r < rooms.len() && names_group(#[trigger] rooms[r], id)) by {
        if is_mentioned(IdKind::Group, rooms, id) {
            let r = choose|r: int|
                0 <= r < rooms.len() && own_ids(IdKind::Group, #[trigger] rooms[r]).contains(id);
            lemma_own_ids(rooms[r], id);
        }
        if exists|r: int| 0 <= r < rooms.len() && names_group(#[trigger] rooms[r], id) {
            let r = choose|r: int| 0 <= r < rooms.len() && names_group(#[trigger] rooms[r], id);
            lemma_own_ids(rooms[r], id);
        }
    }
}

}
