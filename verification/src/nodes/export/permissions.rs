//! What the permissions and policies of exported rooms are.
use std::collections::HashMap;
use vstd::prelude::*;
use crate::maps::{keys_of, lists_keys};
use crate::nodes::export::models::room_views;
use crate::nodes::models::{
    lemma_sub_rooms_view, GroupMemberAcceptance, GroupRoomPermission, NodePermissions, Room,
    RoomPolicies, RoomView, UserRoomPermission,
};
use crate::nodes::rules::{conflicts, has_conflict, room_has_admin};
use crate::nodes::target::RoomUser;

verus! {

// ---------------------------------------------------------------- users

/// Whether permissions include the right to manage.
pub open spec fn manages(permissions: Option<NodePermissions>) -> bool {
    permissions matches Some(p) && p.manage
}

/// The ids of the users who may manage the room.
pub open spec fn managing_users(users: Seq<RoomUser>) -> Seq<u64>
    decreases users.len(),
{
    if users.len() == 0 {
        Seq::empty()
    } else if manages(users.last().permissions) {
        managing_users(users.drop_last()).push(users.last().id as u64)
    } else {
        managing_users(users.drop_last())
    }
}

/// The users who may not manage the room, with their permissions.
pub open spec fn other_users(users: Seq<RoomUser>) -> Seq<UserRoomPermission>
    decreases users.len(),
{
    if users.len() == 0 {
        Seq::empty()
    } else if manages(users.last().permissions) {
        other_users(users.drop_last())
    } else {
        other_users(users.drop_last()).push(
            UserRoomPermission {
                id: users.last().id as u64,
                permissions: users.last().permissions->0,
            },
        )
    }
}

/// A list where it is not empty, another one otherwise.
pub open spec fn filled_or<T>(list: Seq<T>, other: Option<Seq<T>>) -> Option<Seq<T>> {
    if list.len() > 0 {
        Some(list)
    } else {
        other
    }
}

/// A room with its users. Where they could not be had, the current user is the
/// admin: every room needs one.
pub open spec fn room_with_users(
    room: RoomView,
    users: Option<Seq<RoomUser>>,
    current_user_id: u64,
) -> RoomView {
    match users {
        Some(users) => RoomView {
            admin_ids: Some(managing_users(users)),
            user_permissions: filled_or(other_users(users), room.user_permissions),
            ..room
        },
        None => RoomView { admin_ids: Some(seq![current_user_id]), ..room },
    }
}

/// Whether all users come with permissions.
pub open spec fn have_permissions(users: Seq<RoomUser>) -> bool {
    forall|i: int| 0 <= i < users.len() ==> (#[trigger] users[i]).permissions is Some
}

/// Sets the users of an exported room.
pub fn set_users(room: &mut Room, users: Option<&Vec<RoomUser>>, current_user_id: u64)
    requires
        users matches Some(list) ==> have_permissions(list@),
    ensures
        final(room)@ == room_with_users(
            old(room)@,
            match users {
                Some(list) => Some(list@),
                None => None,
            },
            current_user_id,
        ),
{
    broadcast use lemma_sub_rooms_view;

    let ghost before = room@;
    let mut user_permissions: Vec<UserRoomPermission> = Vec::new();
    let mut admin_ids: Vec<u64> = Vec::new();
    match users {
        Some(list) => {
            let mut i: usize = 0;
            while i < list.len()
                invariant
                    i <= list.len(),
                    have_permissions(list@),
                    admin_ids@ == managing_users(list@.take(i as int)),
                    user_permissions@ == other_users(list@.take(i as int)),
                decreases list.len() - i,
            {
                let user = &list[i];
                assert(list@.take(i + 1).drop_last() =~= list@.take(i as int));
                assert(list@[i as int].permissions is Some);
                if let Some(permissions) = user.permissions {
                    if permissions.manage {
                        admin_ids.push(user.id as u64);
                    } else {
                        user_permissions.push(
                            UserRoomPermission { id: user.id as u64, permissions },
                        );
                    }
                }
                i += 1;
            }
            assert(list@.take(i as int) =~= list@);
        },
        None => {
            admin_ids.push(current_user_id);
            assert(admin_ids@ =~= seq![current_user_id]);
        },
    }
    if user_permissions.len() > 0 {
        room.user_permissions = Some(user_permissions);
    }
    room.admin_ids = Some(admin_ids);
    assert(room@.sub_rooms == before.sub_rooms);
}

// ---------------------------------------------------------------- groups

/// A group of a room, as the DRACOON API shows it.
#[derive(Debug, Clone, Copy, PartialEq, Eq, Structural)]
pub struct RoomGroup {
    pub id: u64,
    pub new_group_member_acceptance: Option<GroupMemberAcceptance>,
    pub permissions: Option<NodePermissions>,
}

/// The ids of the groups that may manage the room.
pub open spec fn managing_groups(groups: Seq<RoomGroup>) -> Seq<u64>
    decreases groups.len(),
{
    if groups.len() == 0 {
        Seq::empty()
    } else if manages(groups.last().permissions) {
        managing_groups(groups.drop_last()).push(groups.last().id)
    } else {
        managing_groups(groups.drop_last())
    }
}

/// The groups that may not manage the room, with their permissions.
pub open spec fn other_groups(groups: Seq<RoomGroup>) -> Seq<GroupRoomPermission>
    decreases groups.len(),
{
    if groups.len() == 0 {
        Seq::empty()
    } else if manages(groups.last().permissions) {
        other_groups(groups.drop_last())
    } else {
        other_groups(groups.drop_last()).push(
            GroupRoomPermission {
                id: groups.last().id,
                new_group_member_acceptance: groups.last().new_group_member_acceptance,
                permissions: groups.last().permissions->0,
            },
        )
    }
}

/// A room with its groups; as it is where they could not be had.
pub open spec fn room_with_groups(room: RoomView, groups: Option<Seq<RoomGroup>>) -> RoomView {
    match groups {
        Some(groups) => RoomView {
            admin_group_ids: Some(managing_groups(groups)),
            group_permissions: filled_or(other_groups(groups), room.group_permissions),
            ..room
        },
        None => room,
    }
}

/// Whether all groups come with permissions.
pub open spec fn groups_have_permissions(groups: Seq<RoomGroup>) -> bool {
    forall|i: int| 0 <= i < groups.len() ==> (#[trigger] groups[i]).permissions is Some
}

/// Sets the groups of an exported room.
pub fn set_groups(room: &mut Room, groups: Option<&Vec<RoomGroup>>)
    requires
        groups matches Some(list) ==> groups_have_permissions(list@),
    ensures
        final(room)@ == room_with_groups(
            old(room)@,
            match groups {
                Some(list) => Some(list@),
                None => None,
            },
        ),
{
    broadcast use lemma_sub_rooms_view;

    let ghost before = room@;
    if let Some(list) = groups {
        let mut group_permissions: Vec<GroupRoomPermission> = Vec::new();
        let mut admin_group_ids: Vec<u64> = Vec::new();
        let mut i: usize = 0;
        while i < list.len()
            invariant
                i <= list.len(),
                groups_have_permissions(list@),
                admin_group_ids@ == managing_groups(list@.take(i as int)),
                group_permissions@ == other_groups(list@.take(i as int)),
            decreases list.len() - i,
        {
            let group = &list[i];
            assert(list@.take(i + 1).drop_last() =~= list@.take(i as int));
            assert(list@[i as int].permissions is Some);
            if let Some(permissions) = group.permissions {
                if permissions.manage {
                    admin_group_ids.push(group.id);
                } else {
                    group_permissions.push(
                        GroupRoomPermission {
                            id: group.id,
                            new_group_member_acceptance: group.new_group_member_acceptance,
                            permissions,
                        },
                    );
                }
            }
            i += 1;
        }
        assert(list@.take(i as int) =~= list@);
        room.admin_group_ids = Some(admin_group_ids);
        if group_permissions.len() > 0 {
            room.group_permissions = Some(group_permissions);
        }
        assert(room@.sub_rooms == before.sub_rooms);
    }
}

// ---------------------------------------------------------------- policies

/// The policies of a room, as the DRACOON API shows them.
#[derive(Debug, Clone, Copy, PartialEq, Eq, Structural)]
pub struct CurrentPolicies {
    pub default_expiration_period: u64,
    pub is_virus_protection_enabled: bool,
}

/// A room with its policies; as it is where they could not be had.
pub open spec fn room_with_policies(room: RoomView, policies: Option<CurrentPolicies>) -> RoomView {
    match policies {
        Some(policies) => RoomView {
            policies: Some(
                RoomPolicies {
                    default_expiration_period: Some(policies.default_expiration_period),
                    is_virus_protection_enabled: Some(policies.is_virus_protection_enabled),
                },
            ),
            ..room
        },
        None => room,
    }
}

/// Sets the policies of an exported room.
pub fn set_policies(room: &mut Room, policies: Option<CurrentPolicies>)
    ensures
        final(room)@ == room_with_policies(old(room)@, policies),
{
    broadcast use lemma_sub_rooms_view;

    let ghost before = room@;
    if let Some(policies) = policies {
        room.policies = Some(
            RoomPolicies {
                default_expiration_period: Some(policies.default_expiration_period),
                is_virus_protection_enabled: Some(policies.is_virus_protection_enabled),
            },
        );
        assert(room@.sub_rooms == before.sub_rooms);
    }
}

// ---------------------------------------------------------------- maps

/// The list for a room, where there is one.
pub open spec fn list_of<T>(lists: Map<u64, Vec<T>>, id: u64) -> Option<Seq<T>> {
    if lists.contains_key(id) {
        Some(lists[id]@)
    } else {
        None
    }
}

/// The policies of a room, where they are known.
pub open spec fn policies_of(known: Map<u64, CurrentPolicies>, id: u64) -> Option<CurrentPolicies> {
    if known.contains_key(id) {
        Some(known[id])
    } else {
        None
    }
}

/// All rooms with their users, by the users that could be had for each.
pub open spec fn rooms_with_users(
    rooms: Map<u64, RoomView>,
    users: Map<u64, Vec<RoomUser>>,
    current_user_id: u64,
) -> Map<u64, RoomView> {
    rooms.map_entries(
        |id: u64, room: RoomView| room_with_users(room, list_of(users, id), current_user_id),
    )
}

/// All rooms with their groups, by the groups that could be had for each.
pub open spec fn rooms_with_groups(
    rooms: Map<u64, RoomView>,
    groups: Map<u64, Vec<RoomGroup>>,
) -> Map<u64, RoomView> {
    rooms.map_entries(|id: u64, room: RoomView| room_with_groups(room, list_of(groups, id)))
}

/// All rooms with their policies, by the policies that could be had for each.
pub open spec fn rooms_with_policies(
    rooms: Map<u64, RoomView>,
    policies: Map<u64, CurrentPolicies>,
) -> Map<u64, RoomView> {
    rooms.map_entries(|id: u64, room: RoomView| room_with_policies(room, policies_of(policies, id)))
}

/// All rooms of a map with an update, which is made by their ids.
fn update_rooms<F: Fn(u64, &Room) -> Room>(rooms_map: &HashMap<u64, Room>, update: F) -> (updated:
    HashMap<u64, Room>)
    requires
        forall|id: u64, room: &Room| #[trigger] call_requires(update, (id, room)),
    ensures
        forall|id: u64| #[trigger] updated@.contains_key(id) <==> rooms_map@.contains_key(id),
        forall|id: u64| #[trigger]
            updated@.contains_key(id) ==> call_ensures(
                update,
                (id, &rooms_map@[id]),
                updated@[id],
            ),
{
    broadcast use vstd::std_specs::hash::group_hash_axioms;

    let keys = keys_of(rooms_map);
    let mut updated: HashMap<u64, Room> = HashMap::new();
    let mut i: usize = 0;
    while i < keys.len()
        invariant
            i <= keys.len(),
            lists_keys(keys@, rooms_map@),
            forall|id: u64, room: &Room| #[trigger] call_requires(update, (id, room)),
            forall|id: u64| #[trigger]
                updated@.contains_key(id) <==> keys@.take(i as int).contains(id),
            forall|id: u64| #[trigger]
                updated@.contains_key(id) ==> call_ensures(
                    update,
                    (id, &rooms_map@[id]),
                    updated@[id],
                ),
        decreases keys.len() - i,
    {
        broadcast use vstd::std_specs::hash::group_hash_axioms;

        let key = keys[i];
        assert(keys@.contains(key));
        assert(rooms_map@.contains_key(key));
        if let Some(room) = rooms_map.get(&key) {
            updated.insert(key, update(key, room));
        }
        proof {
            lemma_take_contains(keys@, i as int);
        }
        i += 1;
    }
    assert(keys@.take(i as int) =~= keys@);
    updated
}

/// Sets the users of all exported rooms, by the users that could be had for
/// each.
pub fn update_rooms_map_with_user_perms(
    rooms_map: &HashMap<u64, Room>,
    users: &HashMap<u64, Vec<RoomUser>>,
    current_user_id: u64,
) -> (updated: HashMap<u64, Room>)
    requires
        forall|id: u64| #[trigger] users@.contains_key(id) ==> have_permissions(users@[id]@),
    ensures
        room_views(updated@) == rooms_with_users(room_views(rooms_map@), users@, current_user_id),
{
    let update = |id: u64, room: &Room| -> (new_room: Room)
        ensures
            new_room@ == room_with_users(room@, list_of(users@, id), current_user_id),
        {
            broadcast use vstd::std_specs::hash::group_hash_axioms;

            let mut new_room = room.clone();
            set_users(&mut new_room, users.get(&id), current_user_id);
            new_room
        };
    let updated = update_rooms(rooms_map, update);
    assert(room_views(updated@) =~= rooms_with_users(
        room_views(rooms_map@),
        users@,
        current_user_id,
    ));
    updated
}

/// Sets the groups of all exported rooms, by the groups that could be had for
/// each.
pub fn update_rooms_map_with_group_perms(
    rooms_map: &HashMap<u64, Room>,
    groups: &HashMap<u64, Vec<RoomGroup>>,
) -> (updated: HashMap<u64, Room>)
    requires
        forall|id: u64| #[trigger]
            groups@.contains_key(id) ==> groups_have_permissions(groups@[id]@),
    ensures
        room_views(updated@) == rooms_with_groups(room_views(rooms_map@), groups@),
{
    let update = |id: u64, room: &Room| -> (new_room: Room)
        ensures
            new_room@ == room_with_groups(room@, list_of(groups@, id)),
        {
            broadcast use vstd::std_specs::hash::group_hash_axioms;

            let mut new_room = room.clone();
            set_groups(&mut new_room, groups.get(&id));
            new_room
        };
    let updated = update_rooms(rooms_map, update);
    assert(room_views(updated@) =~= rooms_with_groups(room_views(rooms_map@), groups@));
    updated
}

/// Sets the policies of all exported rooms, by the policies that could be had
/// for each.
pub fn update_rooms_with_perms(
    rooms_map: &HashMap<u64, Room>,
    policies: &HashMap<u64, CurrentPolicies>,
) -> (updated: HashMap<u64, Room>)
    ensures
        room_views(updated@) == rooms_with_policies(room_views(rooms_map@), policies@),
{
    let update = |id: u64, room: &Room| -> (new_room: Room)
        ensures
            new_room@ == room_with_policies(room@, policies_of(policies@, id)),
        {
            broadcast use vstd::std_specs::hash::group_hash_axioms;

            let known = match policies.get(&id) {
                Some(known) => Some(*known),
                None => None,
            };
            let mut new_room = room.clone();
            set_policies(&mut new_room, known);
            new_room
        };
    let updated = update_rooms(rooms_map, update);
    assert(room_views(updated@) =~= rooms_with_policies(room_views(rooms_map@), policies@));
    updated
}

proof fn lemma_take_contains(keys: Seq<u64>, i: int)
    requires
        0 <= i < keys.len(),
    ensures
        forall|id: u64| #[trigger]
            keys.take(i + 1).contains(id) <==> keys.take(i).contains(id) || id == keys[i],
{
    assert forall|id: u64| #[trigger] keys.take(i + 1).contains(id) <==> keys.take(i).contains(id)
        || id == keys[i] by {
        let more = keys.take(i + 1);
        let fewer = keys.take(i);
        if fewer.contains(id) {
            let j = choose|j: int| 0 <= j < fewer.len() && fewer[j] == id;
            assert(more[j] == id);
        }
        if id == keys[i] {
            assert(more[i] == id);
        }
        if more.contains(id) {
            let j = choose|j: int| 0 <= j < more.len() && more[j] == id;
            if j < i {
                assert(fewer[j] == id);
            }
        }
    }
}

// ---------------------------------------------------------------- laws

/// A room whose users could not be had still has an admin.
pub proof fn law_unknown_users_leave_an_admin(room: RoomView, current_user_id: u64)
    ensures
        room_has_admin(room_with_users(room, None, current_user_id)),
{
    assert(seq![current_user_id].len() > 0);
}

/// A room in which some user may manage has an admin.
pub proof fn law_manager_becomes_admin(
    room: RoomView,
    users: Seq<RoomUser>,
    i: int,
    current_user_id: u64,
)
    requires
        0 <= i < users.len(),
        manages(users[i].permissions),
    ensures
        room_has_admin(room_with_users(room, Some(users), current_user_id)),
        managing_users(users).contains(users[i].id as u64),
{
    lemma_managing(users, i);
}

proof fn lemma_managing(users: Seq<RoomUser>, i: int)
    requires
        0 <= i < users.len(),
        manages(users[i].permissions),
    ensures
        managing_users(users).contains(users[i].id as u64),
        managing_users(users).len() > 0,
    decreases users.len(),
{
    let all = managing_users(users);
    let before = managing_users(users.drop_last());
    if i == users.len() - 1 {
        assert(all[all.len() - 1] == users[i].id as u64);
    } else {
        assert(users.drop_last()[i] == users[i]);
        lemma_managing(users.drop_last(), i);
        let k = choose|k: int| 0 <= k < before.len() && before[k] == users[i].id as u64;
        assert(all[k] == users[i].id as u64);
    }
}

/// Whether no two users have the same id.
pub open spec fn distinct_users(users: Seq<RoomUser>) -> bool {
    forall|i: int, j: int|
        0 <= i < j < users.len() ==> (#[trigger] users[i]).id as u64 != (
        #[trigger] users[j]).id as u64
}

/// No user of an exported room is both an admin and listed without the right to
/// manage, where the users come with one entry each.
pub proof fn law_export_has_no_conflict(
    room: RoomView,
    users: Seq<RoomUser>,
    current_user_id: u64,
)
    requires
        room.user_permissions is None,
        distinct_users(users),
    ensures
        !has_conflict(room_with_users(room, Some(users), current_user_id)),
{
    let admins = managing_users(users);
    let others = other_users(users);
    assert forall|k: int| 0 <= k < others.len() implies !conflicts(
        admins,
        #[trigger] others[k],
    ) by {
        if admins.contains(others[k].id) {
            let a = choose|a: int| 0 <= a < admins.len() && admins[a] == others[k].id;
            lemma_admin_source(users, a);
            lemma_other_source(users, k);
        }
    }
}

proof fn lemma_admin_source(users: Seq<RoomUser>, a: int)
    requires
        0 <= a < managing_users(users).len(),
    ensures
        exists|i: int|
            0 <= i < users.len() && manages((#[trigger] users[i]).permissions)
                && users[i].id as u64 == managing_users(users)[a],
    decreases users.len(),
{
    let front = users.drop_last();
    let before = managing_users(front);
    if a < before.len() {
        lemma_admin_source(front, a);
        let i = choose|i: int|
            0 <= i < front.len() && manages((#[trigger] front[i]).permissions) && front[i].id as u64
                == before[a];
        assert(users[i] == front[i]);
    } else {
        assert(manages(users[users.len() - 1].permissions));
    }
}

proof fn lemma_other_source(users: Seq<RoomUser>, k: int)
    requires
        0 <= k < other_users(users).len(),
    ensures
        exists|i: int|
            0 <= i < users.len() && !manages((#[trigger] users[i]).permissions)
                && users[i].id as u64 == other_users(users)[k].id,
    decreases users.len(),
{
    let front = users.drop_last();
    let before = other_users(front);
    if k < before.len() {
        lemma_other_source(front, k);
        let i = choose|i: int|
            0 <= i < front.len() && !manages((#[trigger] front[i]).permissions)
                && front[i].id as u64 == before[k].id;
        assert(users[i] == front[i]);
    } else {
        assert(!manages(users[users.len() - 1].permissions));
    }
}

// ---------------------------------------------------------------- what is exported

proof fn lemma_users_split(users: Seq<RoomUser>)
    ensures
        managing_users(users) == users.filter(
            |user: RoomUser| user.permissions is Some && user.permissions->0.manage,
        ).map_values(|user: RoomUser| user.id as u64),
        other_users(users) == users.filter(
            |user: RoomUser| !(user.permissions is Some && user.permissions->0.manage),
        ).map_values(
            |user: RoomUser|
                UserRoomPermission { id: user.id as u64, permissions: user.permissions->0 },
        ),
    decreases users.len(),
{
    reveal(Seq::filter);
    let manager = |user: RoomUser| user.permissions is Some && user.permissions->0.manage;
    let other = |user: RoomUser| !(user.permissions is Some && user.permissions->0.manage);
    let id = |user: RoomUser| user.id as u64;
    let entry = |user: RoomUser|
        UserRoomPermission { id: user.id as u64, permissions: user.permissions->0 };
    if users.len() > 0 {
        let front = users.drop_last();
        lemma_users_split(front);
        assert(managing_users(users) =~= users.filter(manager).map_values(id));
        assert(other_users(users) =~= users.filter(other).map_values(entry));
    } else {
        assert(managing_users(users) =~= users.filter(manager).map_values(id));
        assert(other_users(users) =~= users.filter(other).map_values(entry));
    }
}

/// An exported room has as admins exactly the users who may manage it, in their
/// order. All other users keep the id and all permissions that they came with, in
/// their order. Nothing else of the room changes.
pub proof fn law_exported_users(room: RoomView, users: Seq<RoomUser>, current_user_id: u64)
    requires
        forall|i: int| 0 <= i < users.len() ==> (#[trigger] users[i]).permissions is Some,
    ensures
        ({
            let managers = users.filter(|user: RoomUser| user.permissions->0.manage);
            let others = users.filter(|user: RoomUser| !user.permissions->0.manage);
            let entries = others.map_values(
                |user: RoomUser|
                    UserRoomPermission { id: user.id as u64, permissions: user.permissions->0 },
            );
            room_with_users(room, Some(users), current_user_id) == (RoomView {
                admin_ids: Some(managers.map_values(|user: RoomUser| user.id as u64)),
                user_permissions: if entries.len() > 0 {
                    Some(entries)
                } else {
                    room.user_permissions
                },
                ..room
            })
        }),
{
    lemma_users_split(users);
    lemma_same_filter(
        users,
        |user: RoomUser| user.permissions is Some && user.permissions->0.manage,
        |user: RoomUser| user.permissions->0.manage,
    );
    lemma_same_filter(
        users,
        |user: RoomUser| !(user.permissions is Some && user.permissions->0.manage),
        |user: RoomUser| !user.permissions->0.manage,
    );
}

proof fn lemma_same_filter<T>(list: Seq<T>, a: spec_fn(T) -> bool, b: spec_fn(T) -> bool)
    requires
        forall|i: int| 0 <= i < list.len() ==> a(#[trigger] list[i]) == b(list[i]),
    ensures
        list.filter(a) == list.filter(b),
    decreases list.len(),
{
    reveal(Seq::filter);
    if list.len() > 0 {
        let front = list.drop_last();
        assert forall|i: int| 0 <= i < front.len() implies a(#[trigger] front[i]) == b(
            front[i],
        ) by {
            assert(front[i] == list[i]);
        }
        lemma_same_filter(front, a, b);
        assert(a(list[list.len() - 1]) == b(list[list.len() - 1]));
    }
}

/// Where the users of a room could not be had, the current user is its only
/// admin, and nothing else of the room changes.
pub proof fn law_unknown_users(room: RoomView, current_user_id: u64)
    ensures
        room_with_users(room, None, current_user_id) == (RoomView {
            admin_ids: Some(seq![current_user_id]),
            ..room
        }),
{
}

proof fn lemma_groups_split(groups: Seq<RoomGroup>)
    ensures
        managing_groups(groups) == groups.filter(
            |group: RoomGroup| group.permissions is Some && group.permissions->0.manage,
        ).map_values(|group: RoomGroup| group.id),
        other_groups(groups) == groups.filter(
            |group: RoomGroup| !(group.permissions is Some && group.permissions->0.manage),
        ).map_values(
            |group: RoomGroup|
                GroupRoomPermission {
                    id: group.id,
                    new_group_member_acceptance: group.new_group_member_acceptance,
                    permissions: group.permissions->0,
                },
        ),
    decreases groups.len(),
{
    reveal(Seq::filter);
    let manager = |group: RoomGroup| group.permissions is Some && group.permissions->0.manage;
    let other = |group: RoomGroup| !(group.permissions is Some && group.permissions->0.manage);
    let id = |group: RoomGroup| group.id;
    let entry = |group: RoomGroup|
        GroupRoomPermission {
            id: group.id,
            new_group_member_acceptance: group.new_group_member_acceptance,
            permissions: group.permissions->0,
        };
    if groups.len() > 0 {
        lemma_groups_split(groups.drop_last());
    }
    assert(managing_groups(groups) =~= groups.filter(manager).map_values(id));
    assert(other_groups(groups) =~= groups.filter(other).map_values(entry));
}

/// An exported room has as admin groups exactly the groups that may manage it, in
/// their order. All other groups keep the id, the acceptance of new members and
/// all permissions that they came with, in their order. Nothing else of the room
/// changes.
pub proof fn law_exported_groups(room: RoomView, groups: Seq<RoomGroup>)
    requires
        forall|i: int| 0 <= i < groups.len() ==> (#[trigger] groups[i]).permissions is Some,
    ensures
        ({
            let managers = groups.filter(|group: RoomGroup| group.permissions->0.manage);
            let others = groups.filter(|group: RoomGroup| !group.permissions->0.manage);
            let entries = others.map_values(
                |group: RoomGroup|
                    GroupRoomPermission {
                        id: group.id,
                        new_group_member_acceptance: group.new_group_member_acceptance,
                        permissions: group.permissions->0,
                    },
            );
            room_with_groups(room, Some(groups)) == (RoomView {
                admin_group_ids: Some(managers.map_values(|group: RoomGroup| group.id)),
                group_permissions: if entries.len() > 0 {
                    Some(entries)
                } else {
                    room.group_permissions
                },
                ..room
            })
        }),
        room_with_groups(room, None) == room,
{
    lemma_groups_split(groups);
    lemma_same_filter(
        groups,
        |group: RoomGroup| group.permissions is Some && group.permissions->0.manage,
        |group: RoomGroup| group.permissions->0.manage,
    );
    lemma_same_filter(
        groups,
        |group: RoomGroup| !(group.permissions is Some && group.permissions->0.manage),
        |group: RoomGroup| !group.permissions->0.manage,
    );
}

/// No exported entry lets its user or group manage the room: those who may are
/// admins instead.
pub proof fn law_no_exported_entry_manages(
    room: RoomView,
    users: Seq<RoomUser>,
    groups: Seq<RoomGroup>,
    current_user_id: u64,
)
    requires
        room.user_permissions is None,
        room.group_permissions is None,
        forall|i: int| 0 <= i < users.len() ==> (#[trigger] users[i]).permissions is Some,
        forall|i: int| 0 <= i < groups.len() ==> (#[trigger] groups[i]).permissions is Some,
    ensures
        room_with_users(room, Some(users), current_user_id).user_permissions matches Some(list)
            ==> forall|i: int| 0 <= i < list.len() ==> !(#[trigger] list[i]).permissions.manage,
        room_with_groups(room, Some(groups)).group_permissions matches Some(list) ==> forall|i: int|
            0 <= i < list.len() ==> !(#[trigger] list[i]).permissions.manage,
{
    lemma_other_users_do_not_manage(users);
    lemma_other_groups_do_not_manage(groups);
}

proof fn lemma_other_users_do_not_manage(users: Seq<RoomUser>)
    requires
        forall|i: int| 0 <= i < users.len() ==> (#[trigger] users[i]).permissions is Some,
    ensures
        forall|k: int|
            0 <= k < other_users(users).len() ==> !(#[trigger] other_users(
                users,
            )[k]).permissions.manage,
    decreases users.len(),
{
    if users.len() > 0 {
        let front = users.drop_last();
        assert forall|i: int| 0 <= i < front.len() implies (
        #[trigger] front[i]).permissions is Some by {
            assert(front[i] == users[i]);
        }
        lemma_other_users_do_not_manage(front);
        assert(users[users.len() - 1].permissions is Some);
        assert forall|k: int| 0 <= k < other_users(users).len() implies !(
        #[trigger] other_users(users)[k]).permissions.manage by {
            if k < other_users(front).len() {
                assert(other_users(users)[k] == other_users(front)[k]);
            }
        }
    }
}

proof fn lemma_other_groups_do_not_manage(groups: Seq<RoomGroup>)
    requires
        forall|i: int| 0 <= i < groups.len() ==> (#[trigger] groups[i]).permissions is Some,
    ensures
        forall|k: int|
            0 <= k < other_groups(groups).len() ==> !(#[trigger] other_groups(
                groups,
            )[k]).permissions.manage,
    decreases groups.len(),
{
    if groups.len() > 0 {
        let front = groups.drop_last();
        assert forall|i: int| 0 <= i < front.len() implies (
        #[trigger] front[i]).permissions is Some by {
            assert(front[i] == groups[i]);
        }
        lemma_other_groups_do_not_manage(front);
        assert(groups[groups.len() - 1].permissions is Some);
        assert forall|k: int| 0 <= k < other_groups(groups).len() implies !(
        #[trigger] other_groups(groups)[k]).permissions.manage by {
            if k < other_groups(front).len() {
                assert(other_groups(groups)[k] == other_groups(front)[k]);
            }
        }
    }
}

/// An exported room carries both policies that it came with, and keeps its own
/// where they could not be had. Nothing else of the room changes.
pub proof fn law_exported_policies(room: RoomView, policies: CurrentPolicies)
    ensures
        room_with_policies(room, Some(policies)) == (RoomView {
            policies: Some(
                RoomPolicies {
                    default_expiration_period: Some(policies.default_expiration_period),
                    is_virus_protection_enabled: Some(policies.is_virus_protection_enabled),
                },
            ),
            ..room
        }),
        room_with_policies(room, None) == room,
{
}

/// All rooms are exported, no other, and each gets the users, the groups and the
/// policies that were had for its own id.
pub proof fn law_every_room_gets_its_own(
    rooms: Map<u64, RoomView>,
    users: Map<u64, Vec<RoomUser>>,
    groups: Map<u64, Vec<RoomGroup>>,
    policies: Map<u64, CurrentPolicies>,
    current_user_id: u64,
    id: u64,
)
    ensures
        rooms_with_users(rooms, users, current_user_id).contains_key(id) <==> rooms.contains_key(id),
        rooms_with_groups(rooms, groups).contains_key(id) <==> rooms.contains_key(id),
        rooms_with_policies(rooms, policies).contains_key(id) <==> rooms.contains_key(id),
        rooms.contains_key(id) ==> {
            &&& rooms_with_users(rooms, users, current_user_id)[id] == (if users.contains_key(id) {
                room_with_users(rooms[id], Some(users[id]@), current_user_id)
            } else {
                room_with_users(rooms[id], None, current_user_id)
            })
            &&& rooms_with_groups(rooms, groups)[id] == (if groups.contains_key(id) {
                room_with_groups(rooms[id], Some(groups[id]@))
            } else {
                rooms[id]
            })
            &&& rooms_with_policies(rooms, policies)[id] == (if policies.contains_key(id) {
                room_with_policies(rooms[id], Some(policies[id]))
            } else {
                rooms[id]
            })
        },
{
}

/// Users and groups come with permissions exactly if each of them has some.
pub proof fn law_everyone_has_permissions(users: Seq<RoomUser>, groups: Seq<RoomGroup>)
    ensures
        have_permissions(users) <==> (forall|i: int|
            0 <= i < users.len() ==> (#[trigger] users[i]).permissions is Some),
        groups_have_permissions(groups) <==> (forall|i: int|
            0 <= i < groups.len() ==> (#[trigger] groups[i]).permissions is Some),
{
}

}
