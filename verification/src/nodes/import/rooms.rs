//! Creating the rooms of an import, and giving the current user the rights
//! that it takes for as long as it takes.
use std::collections::HashMap;
use vstd::prelude::*;
use crate::crates::{first_occurrences, unique_numbers};
use crate::nodes::ids::elements;
use crate::nodes::import::tasks::{RoomPoliciesUpdate, TaskView, UpdateTask, UpdateTaskType};
use crate::nodes::models::{
    copy_list, lemma_sub_rooms_view, optional_seq, rooms_view, GroupMemberAcceptance, GroupRoomPermission,
    NodePermissions, Room, RoomId, RoomPolicies, RoomView, UserRoomPermission,
};
use crate::nodes::rules::contains_id;
use crate::text::{join2, optional_text};

verus! {

// ---------------------------------------------------------------- the current user as admin

/// Whether a user is an admin of a room.
pub open spec fn is_admin(room: RoomView, user_id: u64) -> bool {
    elements(room.admin_ids).contains(user_id)
}

/// A room with a user as one of its admins: one who is not yet comes last, and
/// no admin is named twice then.
pub open spec fn with_admin(room: RoomView, user_id: u64) -> RoomView {
    if is_admin(room, user_id) {
        room
    } else {
        RoomView {
            admin_ids: Some(first_occurrences(elements(room.admin_ids).push(user_id))),
            ..room
        }
    }
}

/// The permissions of the first entry of a user.
pub open spec fn first_permissions(users: Seq<UserRoomPermission>, user_id: u64) -> Option<
    NodePermissions,
>
    decreases users.len(),
{
    if users.len() == 0 {
        None
    } else if users[0].id == user_id {
        Some(users[0].permissions)
    } else {
        first_permissions(users.subrange(1, users.len() as int), user_id)
    }
}

/// The permissions of the last entry of a user.
pub open spec fn last_permissions(users: Seq<UserRoomPermission>, user_id: u64) -> Option<
    NodePermissions,
>
    decreases users.len(),
{
    if users.len() == 0 {
        None
    } else if users.last().id == user_id {
        Some(users.last().permissions)
    } else {
        last_permissions(users.drop_last(), user_id)
    }
}

/// What has to be set right for a user who is made an admin for a while: the
/// permissions that the user is to have, or none at all. Nothing has to be set
/// right where the user is an admin anyway.
pub open spec fn adjustment(room: RoomView, user_id: u64) -> Option<Option<NodePermissions>> {
    if is_admin(room, user_id) {
        None
    } else {
        Some(first_permissions(elements(room.user_permissions), user_id))
    }
}

/// Where what has to be set right is known for a room once it is there.
pub open spec fn with_adjustment(
    adjustments: Map<u64, Option<NodePermissions>>,
    room_id: u64,
    adjustment: Option<Option<NodePermissions>>,
) -> Map<u64, Option<NodePermissions>> {
    match adjustment {
        Some(permissions) => adjustments.insert(room_id, permissions),
        None => adjustments,
    }
}

/// The permissions of the first entry of a user.
fn find_permissions(users: &Vec<UserRoomPermission>, user_id: u64) -> (permissions: Option<
    NodePermissions,
>)
    ensures
        permissions == first_permissions(users@, user_id),
{
    let mut i: usize = 0;
    assert(users@.subrange(0, users@.len() as int) =~= users@);
    while i < users.len()
        invariant
            i <= users.len(),
            first_permissions(users@, user_id) == first_permissions(
                users@.subrange(i as int, users@.len() as int),
                user_id,
            ),
        decreases users.len() - i,
    {
        if users[i].id == user_id {
            return Some(users[i].permissions);
        }
        proof {
            let rest = users@.subrange(i as int, users@.len() as int);
            assert(rest.subrange(1, rest.len() as int) =~= users@.subrange(i + 1, users@.len() as int));
        }
        i += 1;
    }
    None
}

/// Makes a user an admin of a room that is to be created. Returns what has to
/// be set right when all rooms are there.
pub fn add_current_user(room: &mut Room, current_user_id: u64) -> (adjust: Option<
    Option<NodePermissions>,
>)
    ensures
        final(room)@ == with_admin(old(room)@, current_user_id),
        adjust == adjustment(old(room)@, current_user_id),
{
    broadcast use lemma_sub_rooms_view;

    let ghost before = room@;
    let known = match &room.admin_ids {
        Some(ids) => contains_id(ids, current_user_id),
        None => false,
    };
    assert(known == is_admin(before, current_user_id));
    if known {
        return None;
    }
    let mut admin_ids = match room.admin_ids.take() {
        Some(ids) => ids,
        None => Vec::new(),
    };
    assert(admin_ids@ =~= elements(before.admin_ids));
    admin_ids.push(current_user_id);
    room.admin_ids = Some(unique_numbers(admin_ids));
    assert(room@.sub_rooms == before.sub_rooms);
    match &room.user_permissions {
        Some(users) => Some(find_permissions(users, current_user_id)),
        None => Some(None),
    }
}

/// Notes what has to be set right in a room.
pub fn note_adjustment(
    adjustments: &mut HashMap<u64, Option<NodePermissions>>,
    room_id: RoomId,
    adjust: Option<Option<NodePermissions>>,
)
    ensures
        final(adjustments)@ == with_adjustment(old(adjustments)@, room_id.0, adjust),
{
    broadcast use vstd::std_specs::hash::group_hash_axioms;

    if let Some(permissions) = adjust {
        adjustments.insert(room_id.0, permissions);
    }
}

// ---------------------------------------------------------------- requests

/// The room that the DRACOON API is asked to create.
#[derive(Debug)]
pub struct NewRoom {
    pub name: String,
    pub parent_id: Option<u64>,
    pub classification: u8,
    pub inherit_permissions: bool,
    pub quota: u64,
    pub recycle_bin_retention_period: u32,
    pub new_group_member_acceptance: GroupMemberAcceptance,
    pub admin_ids: Option<Vec<u64>>,
    pub admin_group_ids: Option<Vec<u64>>,
}

/// A room to create, with its name and lists as sequences.
pub struct NewRoomView {
    pub name: Seq<char>,
    pub parent_id: Option<u64>,
    pub classification: u8,
    pub inherit_permissions: bool,
    pub quota: u64,
    pub recycle_bin_retention_period: u32,
    pub new_group_member_acceptance: GroupMemberAcceptance,
    pub admin_ids: Option<Seq<u64>>,
    pub admin_group_ids: Option<Seq<u64>>,
}

impl View for NewRoom {
    type V = NewRoomView;

    open spec fn view(&self) -> NewRoomView {
        NewRoomView {
            name: self.name@,
            parent_id: self.parent_id,
            classification: self.classification,
            inherit_permissions: self.inherit_permissions,
            quota: self.quota,
            recycle_bin_retention_period: self.recycle_bin_retention_period,
            new_group_member_acceptance: self.new_group_member_acceptance,
            admin_ids: optional_seq(self.admin_ids),
            admin_group_ids: optional_seq(self.admin_group_ids),
        }
    }
}

/// A value, or another one where there is none.
pub open spec fn value_or<T>(value: Option<T>, other: T) -> T {
    match value {
        Some(v) => v,
        None => other,
    }
}

/// The room to create for a room of an import. What the import leaves open gets
/// its default, and a room without a parent inherits no permissions.
pub open spec fn new_room(room: RoomView, parent_id: Option<u64>) -> NewRoomView {
    NewRoomView {
        name: room.name,
        parent_id,
        classification: value_or(room.classification, 2),
        inherit_permissions: parent_id is Some && value_or(room.inherit_permissions, false),
        quota: value_or(room.quota, 0),
        recycle_bin_retention_period: value_or(room.recycle_bin_retention_period, 0),
        new_group_member_acceptance: value_or(
            room.new_group_member_acceptance,
            GroupMemberAcceptance::AutoAllow,
        ),
        admin_ids: room.admin_ids,
        admin_group_ids: room.admin_group_ids,
    }
}

impl NewRoom {
    /// The room to create for a room of an import.
    pub fn from_room(room: &Room, parent_id: Option<u64>) -> (new: NewRoom)
        ensures
            new@ == new_room(room@, parent_id),
    {
        NewRoom {
            name: room.name.clone(),
            parent_id,
            classification: match room.classification {
                Some(classification) => classification,
                None => 2,
            },
            inherit_permissions: parent_id.is_some() && (match room.inherit_permissions {
                Some(inherit) => inherit,
                None => false,
            }),
            quota: match room.quota {
                Some(quota) => quota,
                None => 0,
            },
            recycle_bin_retention_period: match room.recycle_bin_retention_period {
                Some(period) => period,
                None => 0,
            },
            new_group_member_acceptance: match room.new_group_member_acceptance {
                Some(acceptance) => acceptance,
                None => GroupMemberAcceptance::AutoAllow,
            },
            admin_ids: copy_list(&room.admin_ids),
            admin_group_ids: copy_list(&room.admin_group_ids),
        }
    }
}

/// Keeping first occurrences keeps every number once, and adds none.
pub proof fn law_first_occurrences(list: Seq<u64>)
    ensures
        first_occurrences(list).no_duplicates(),
        forall|x: u64| #[trigger] first_occurrences(list).contains(x) <==> list.contains(x),
    decreases list.len(),
{
    let kept = first_occurrences(list);
    if list.len() > 0 {
        let front = list.drop_last();
        let before = first_occurrences(front);
        law_first_occurrences(front);
        assert(list =~= front.push(list.last()));
        assert forall|x: u64| #[trigger] kept.contains(x) <==> list.contains(x) by {
            assert(before.contains(x) <==> front.contains(x));
            assert(list.contains(x) <==> front.contains(x) || x == list.last()) by {
                if front.contains(x) {
                    let i = choose|i: int| 0 <= i < front.len() && front[i] == x;
                    assert(list[i] == x);
                }
                if x == list.last() {
                    assert(list[list.len() - 1] == x);
                }
                if list.contains(x) {
                    let i = choose|i: int| 0 <= i < list.len() && list[i] == x;
                    if i < front.len() {
                        assert(front[i] == x);
                    }
                }
            }
            if !front.contains(list.last()) {
                if before.contains(x) {
                    let i = choose|i: int| 0 <= i < before.len() && before[i] == x;
                    assert(kept[i] == x);
                }
                if x == list.last() {
                    assert(kept[before.len() as int] == x);
                }
                if kept.contains(x) {
                    let i = choose|i: int| 0 <= i < kept.len() && kept[i] == x;
                    if i < before.len() {
                        assert(before[i] == x);
                    }
                }
            }
        }
        if !front.contains(list.last()) {
            assert(!before.contains(list.last()));
            assert forall|i: int, j: int| 0 <= i < kept.len() && 0 <= j < kept.len() && i
                != j implies kept[i] != kept[j] by {
                if i < before.len() {
                    assert(before.contains(before[i]));
                }
                if j < before.len() {
                    assert(before.contains(before[j]));
                }
            }
        }
    }
}

/// Whoever creates a room is one of its admins, and so is everyone whom the
/// import names as one; nobody else is.
pub proof fn law_creator_is_admin(
    room: RoomView,
    parent_id: Option<u64>,
    user_id: u64,
    admin_id: u64,
)
    ensures
        elements(new_room(with_admin(room, user_id), parent_id).admin_ids).contains(admin_id)
            <==> is_admin(room, admin_id) || admin_id == user_id,
{
    let ids = elements(room.admin_ids);
    if !is_admin(room, user_id) {
        law_first_occurrences(ids.push(user_id));
        if ids.contains(admin_id) {
            let i = choose|i: int| 0 <= i < ids.len() && ids[i] == admin_id;
            assert(ids.push(user_id)[i] == admin_id);
        }
        if admin_id == user_id {
            assert(ids.push(user_id)[ids.len() as int] == admin_id);
        }
        if ids.push(user_id).contains(admin_id) {
            let i = choose|i: int|
                0 <= i < ids.push(user_id).len() && ids.push(user_id)[i] == admin_id;
            if i < ids.len() {
                assert(ids[i] == admin_id);
            }
        }
    }
}

// ---------------------------------------------------------------- updates

/// The entry of a user for as long as rooms are created: the current user may
/// manage the room.
pub open spec fn temporary_entry(
    user: UserRoomPermission,
    current_user_id: u64,
) -> UserRoomPermission {
    if user.id == current_user_id {
        UserRoomPermission {
            permissions: NodePermissions { manage: true, ..user.permissions },
            ..user
        }
    } else {
        user
    }
}

/// The entries of users for as long as rooms are created.
pub open spec fn temporary_entries(
    users: Seq<UserRoomPermission>,
    current_user_id: u64,
) -> Seq<UserRoomPermission> {
    users.map_values(|user: UserRoomPermission| temporary_entry(user, current_user_id))
}

/// What has to be set right after user permissions with these entries.
pub open spec fn with_user_adjustment(
    adjustments: Map<u64, Option<NodePermissions>>,
    room_id: u64,
    users: Seq<UserRoomPermission>,
    current_user_id: u64,
) -> Map<u64, Option<NodePermissions>> {
    match last_permissions(users, current_user_id) {
        Some(permissions) => adjustments.insert(room_id, Some(permissions)),
        None => adjustments,
    }
}

/// An optional update.
pub open spec fn optional_task(task: Option<UpdateTask>) -> Option<TaskView> {
    match task {
        Some(t) => Some(t@),
        None => None,
    }
}

/// The update of the group permissions of a room.
pub open spec fn group_task(room: RoomView, room_id: RoomId) -> Option<TaskView> {
    match room.group_permissions {
        Some(groups) => Some(TaskView::RoomGroup(room_id, groups)),
        None => None,
    }
}

/// The update of the user permissions of a room.
pub open spec fn user_task(room: RoomView, room_id: RoomId, current_user_id: u64) -> Option<
    TaskView,
> {
    match room.user_permissions {
        Some(users) => Some(
            TaskView::RoomUser(room_id, temporary_entries(users, current_user_id)),
        ),
        None => None,
    }
}

/// The update of the policies of a room.
pub open spec fn policies_task(policies: Option<RoomPolicies>, room_id: RoomId) -> Option<TaskView> {
    match policies {
        Some(policies) => Some(
            TaskView::RoomPolicies(
                room_id,
                RoomPoliciesUpdate {
                    default_expiration_period: value_or(policies.default_expiration_period, 0),
                    is_virus_protection_enabled: policies.is_virus_protection_enabled,
                },
            ),
        ),
        None => None,
    }
}

/// The update that there is, if any.
pub open spec fn task_list(task: Option<TaskView>) -> Seq<TaskView> {
    match task {
        Some(t) => seq![t],
        None => Seq::empty(),
    }
}

/// The updates of a room that was created: groups first, then users, then
/// policies.
pub open spec fn room_tasks(room: RoomView, room_id: RoomId, current_user_id: u64) -> Seq<TaskView> {
    task_list(group_task(room, room_id)) + task_list(user_task(room, room_id, current_user_id))
        + task_list(policies_task(room.policies, room_id))
}

/// The update of the user permissions of a room. The current user keeps the
/// right to manage it, and what the user is to have instead is noted.
pub fn update_room_users(
    room_id: RoomId,
    user_permissions: &Option<Vec<UserRoomPermission>>,
    adjustments: &mut HashMap<u64, Option<NodePermissions>>,
    current_user_id: u64,
) -> (task: Option<UpdateTask>)
    ensures
        optional_task(task) == (match optional_seq(*user_permissions) {
            Some(users) => Some(
                TaskView::RoomUser(room_id, temporary_entries(users, current_user_id)),
            ),
            None => None,
        }),
        final(adjustments)@ == with_user_adjustment(
            old(adjustments)@,
            room_id.0,
            elements(optional_seq(*user_permissions)),
            current_user_id,
        ),
{
    broadcast use vstd::std_specs::hash::group_hash_axioms;

    match user_permissions {
        Some(users) => {
            let ghost before = adjustments@;
            let mut updates: Vec<UserRoomPermission> = Vec::new();
            let mut i: usize = 0;
            assert(updates@ =~= temporary_entries(users@.take(0), current_user_id));
            while i < users.len()
                invariant
                    i <= users.len(),
                    updates@ == temporary_entries(users@.take(i as int), current_user_id),
                    adjustments@ == with_user_adjustment(
                        before,
                        room_id.0,
                        users@.take(i as int),
                        current_user_id,
                    ),
                decreases users.len() - i,
            {
                broadcast use vstd::std_specs::hash::group_hash_axioms;

                let user = users[i];
                assert(users@.take(i + 1).drop_last() =~= users@.take(i as int));
                if user.id == current_user_id {
                    let mut permissions = user.permissions;
                    adjustments.insert(room_id.0, Some(permissions));
                    permissions.manage = true;
                    updates.push(UserRoomPermission { id: user.id, permissions });
                    assert(adjustments@ =~= before.insert(room_id.0, Some(user.permissions)));
                } else {
                    updates.push(user);
                }
                assert(updates@ =~= temporary_entries(users@.take(i + 1), current_user_id));
                i += 1;
            }
            assert(users@.take(i as int) =~= users@);
            Some(UpdateTask { task_type: UpdateTaskType::RoomUser(room_id, updates) })
        },
        None => None,
    }
}

/// The update of the group permissions of a room.
pub fn update_room_groups(
    room_id: RoomId,
    group_permissions: &Option<Vec<GroupRoomPermission>>,
) -> (task: Option<UpdateTask>)
    ensures
        optional_task(task) == (match optional_seq(*group_permissions) {
            Some(groups) => Some(TaskView::RoomGroup(room_id, groups)),
            None => None,
        }),
{
    match copy_list(group_permissions) {
        Some(groups) => Some(
            UpdateTask { task_type: UpdateTaskType::RoomGroup(room_id, groups) },
        ),
        None => None,
    }
}

/// The update of the policies of a room.
pub fn update_room_policies(room_id: RoomId, policies: Option<RoomPolicies>) -> (task: Option<
    UpdateTask,
>)
    ensures
        optional_task(task) == policies_task(policies, room_id),
{
    match policies {
        Some(policies) => {
            let update = RoomPoliciesUpdate {
                default_expiration_period: match policies.default_expiration_period {
                    Some(period) => period,
                    None => 0,
                },
                is_virus_protection_enabled: policies.is_virus_protection_enabled,
            };
            Some(UpdateTask { task_type: UpdateTaskType::RoomPolicies(room_id, update) })
        },
        None => None,
    }
}

/// The updates of a room that was created, in the order in which they are to be
/// collected.
pub fn tasks_of_room(
    room: &Room,
    room_id: RoomId,
    adjustments: &mut HashMap<u64, Option<NodePermissions>>,
    current_user_id: u64,
) -> (tasks: Vec<UpdateTask>)
    ensures
        tasks@.map_values(|task: UpdateTask| task@) == room_tasks(room@, room_id, current_user_id),
        final(adjustments)@ == with_user_adjustment(
            old(adjustments)@,
            room_id.0,
            elements(room@.user_permissions),
            current_user_id,
        ),
{
    let mut tasks: Vec<UpdateTask> = Vec::new();
    if let Some(task) = update_room_groups(room_id, &room.group_permissions) {
        tasks.push(task);
    }
    assert(tasks@.map_values(|task: UpdateTask| task@) =~= task_list(group_task(room@, room_id)));
    let ghost first = tasks@;
    if let Some(task) = update_room_users(
        room_id,
        &room.user_permissions,
        adjustments,
        current_user_id,
    ) {
        tasks.push(task);
    }
    assert(tasks@.map_values(|task: UpdateTask| task@) =~= first.map_values(
        |task: UpdateTask| task@,
    ) + task_list(user_task(room@, room_id, current_user_id)));
    let ghost second = tasks@;
    if let Some(task) = update_room_policies(room_id, room.policies) {
        tasks.push(task);
    }
    assert(tasks@.map_values(|task: UpdateTask| task@) =~= second.map_values(
        |task: UpdateTask| task@,
    ) + task_list(policies_task(room@.policies, room_id)));
    tasks
}

// ---------------------------------------------------------------- creating

/// A room that is about to be created.
#[derive(Debug)]
pub struct PreparedRoom {
    /// What the DRACOON API is asked for.
    pub request: NewRoom,
    /// The room of the import, with the current user as one of its admins.
    pub room: Room,
    /// What has to be set right when the room is there.
    pub adjust: Option<Option<NodePermissions>>,
}

/// A room that was created, as the DRACOON API shows it.
#[derive(Debug)]
pub struct CreatedRoom {
    pub id: RoomId,
    pub name: String,
    pub parent_path: Option<String>,
}

/// The sub rooms that come next, and where.
#[derive(Debug)]
pub struct SubRooms {
    pub parent_id: u64,
    pub path: String,
    pub rooms: Vec<Room>,
}

/// What is to be done once a room is there.
#[derive(Debug)]
pub struct FollowUp {
    /// The updates of the room, in the order in which they are collected.
    pub tasks: Vec<UpdateTask>,
    /// The sub rooms to create in it.
    pub sub_rooms: Option<SubRooms>,
}

/// Makes a room of an import ready to be created.
pub fn prepare_room(room: Room, parent_id: Option<u64>, current_user_id: u64) -> (prepared:
    PreparedRoom)
    ensures
        prepared.room@ == with_admin(room@, current_user_id),
        prepared.request@ == new_room(with_admin(room@, current_user_id), parent_id),
        prepared.adjust == adjustment(room@, current_user_id),
{
    let mut room = room;
    let adjust = add_current_user(&mut room, current_user_id);
    let request = NewRoom::from_room(&room, parent_id);
    PreparedRoom { request, room, adjust }
}

/// What is to be done once a room is there: its updates, and the sub rooms in
/// it. What has to be set right for the current user is noted.
pub fn follow_up(
    room: Room,
    adjust: Option<Option<NodePermissions>>,
    created: &CreatedRoom,
    adjustments: &mut HashMap<u64, Option<NodePermissions>>,
    current_user_id: u64,
) -> (next: FollowUp)
    requires
        room.sub_rooms is Some ==> created.parent_path is Some,
    ensures
        next.tasks@.map_values(|task: UpdateTask| task@) == room_tasks(
            room@,
            created.id,
            current_user_id,
        ),
        final(adjustments)@ == with_user_adjustment(
            with_adjustment(old(adjustments)@, created.id.0, adjust),
            created.id.0,
            elements(room@.user_permissions),
            current_user_id,
        ),
        match room@.sub_rooms {
            Some(rooms) => next.sub_rooms matches Some(below) && below.parent_id == created.id.0
                && below.path@ == optional_text(created.parent_path)->0 + created.name@
                && rooms_view(below.rooms@) == rooms,
            None => next.sub_rooms is None,
        },
{
    broadcast use lemma_sub_rooms_view;

    assert(room@.sub_rooms == (match room.sub_rooms {
        Some(rooms) => Some(rooms_view(rooms@)),
        None => None,
    }));
    note_adjustment(adjustments, created.id, adjust);
    let tasks = tasks_of_room(&room, created.id, adjustments, current_user_id);
    let sub_rooms = match (room.sub_rooms, &created.parent_path) {
        (Some(rooms), Some(parent_path)) => Some(
            SubRooms {
                parent_id: created.id.0,
                path: join2(parent_path.as_str(), created.name.as_str()),
                rooms,
            },
        ),
        _ => None,
    };
    FollowUp { tasks, sub_rooms }
}

// ---------------------------------------------------------------- laws

/// What is asked for a room is what the import says of it. What it leaves open
/// has a default: classification 2, no quota, no retention period, and new group
/// members are let in. The admins and the admin groups are those of the import,
/// in their order, whatever else it says.
pub proof fn law_request_is_what_the_import_says(room: RoomView, parent_id: Option<u64>)
    ensures
        new_room(room, parent_id).name == room.name,
        new_room(room, parent_id).parent_id == parent_id,
        new_room(room, parent_id).admin_ids == room.admin_ids,
        new_room(room, parent_id).admin_group_ids == room.admin_group_ids,
        room.classification matches Some(value) ==> new_room(room, parent_id).classification
            == value,
        room.classification is None ==> new_room(room, parent_id).classification == 2,
        room.quota matches Some(value) ==> new_room(room, parent_id).quota == value,
        room.quota is None ==> new_room(room, parent_id).quota == 0,
        room.recycle_bin_retention_period matches Some(value) ==> new_room(
            room,
            parent_id,
        ).recycle_bin_retention_period == value,
        room.recycle_bin_retention_period is None ==> new_room(
            room,
            parent_id,
        ).recycle_bin_retention_period == 0,
        room.new_group_member_acceptance matches Some(value) ==> new_room(
            room,
            parent_id,
        ).new_group_member_acceptance == value,
        room.new_group_member_acceptance is None ==> new_room(
            room,
            parent_id,
        ).new_group_member_acceptance == GroupMemberAcceptance::AutoAllow,
        new_room(room, parent_id).inherit_permissions <==> parent_id is Some
            && room.inherit_permissions == Some(true),
{
}

/// Making the current user an admin changes nothing but the admins of a room, so
/// a group is an admin group in the request exactly if the import names it as
/// one, and all other settings are those of the import, too.
pub proof fn law_creator_changes_admins_only(
    room: RoomView,
    parent_id: Option<u64>,
    user_id: u64,
)
    ensures
        with_admin(room, user_id) == (RoomView {
            admin_ids: with_admin(room, user_id).admin_ids,
            ..room
        }),
        new_room(with_admin(room, user_id), parent_id) == (NewRoomView {
            admin_ids: with_admin(room, user_id).admin_ids,
            ..new_room(room, parent_id)
        }),
        new_room(with_admin(room, user_id), parent_id).admin_group_ids == room.admin_group_ids,
{
}

/// A user who is named as an admin changes nothing. Any other user comes behind
/// the admins that the import names, who keep their order, each named once.
pub proof fn law_creator_comes_last(room: RoomView, user_id: u64)
    ensures
        names_admin(room, user_id) ==> with_admin(room, user_id) == room,
        room.admin_ids is None ==> with_admin(room, user_id).admin_ids == Some(seq![user_id]),
        !names_admin(room, user_id) && room.admin_ids is Some
            && room.admin_ids->0.no_duplicates() ==> with_admin(room, user_id).admin_ids == Some(
            room.admin_ids->0.push(user_id),
        ),
        !names_admin(room, user_id) && room.admin_ids is Some ==> {
            let after = with_admin(room, user_id).admin_ids->0;
            &&& with_admin(room, user_id).admin_ids is Some
            &&& after.no_duplicates()
            &&& after.len() > 0
            &&& after[after.len() - 1] == user_id
            &&& forall|id: u64| #[trigger]
                after.contains(id) <==> room.admin_ids->0.contains(id) || id == user_id
        },
{
    let ids = elements(room.admin_ids);
    let longer = ids.push(user_id);
    law_first_occurrences(longer);
    assert(longer.drop_last() =~= ids);
    if room.admin_ids is None {
        assert(first_occurrences(ids) =~= Seq::<u64>::empty());
        assert(first_occurrences(longer) =~= seq![user_id]);
    } else if !ids.contains(user_id) {
        if ids.no_duplicates() {
            lemma_distinct_stay(ids);
        }
        let after = first_occurrences(longer);
        assert forall|id: u64| #[trigger] after.contains(id) <==> ids.contains(id) || id
            == user_id by {
            assert(after.contains(id) <==> longer.contains(id));
            if ids.contains(id) {
                let i = choose|i: int| 0 <= i < ids.len() && ids[i] == id;
                assert(longer[i] == id);
            }
            if id == user_id {
                assert(longer[ids.len() as int] == id);
            }
            if longer.contains(id) {
                let i = choose|i: int| 0 <= i < longer.len() && longer[i] == id;
                if i < ids.len() {
                    assert(ids[i] == id);
                }
            }
        }
    }
}

proof fn lemma_distinct_stay(ids: Seq<u64>)
    requires
        ids.no_duplicates(),
    ensures
        first_occurrences(ids) == ids,
    decreases ids.len(),
{
    if ids.len() > 0 {
        let front = ids.drop_last();
        lemma_distinct_stay(front);
        if front.contains(ids.last()) {
            let i = choose|i: int| 0 <= i < front.len() && front[i] == ids.last();
            assert(ids[i] == ids[ids.len() - 1]);
        }
        assert(front.push(ids.last()) =~= ids);
    } else {
        assert(first_occurrences(ids) =~= ids);
    }
}

/// Whether the import names a user as an admin of a room.
pub open spec fn names_admin(room: RoomView, user_id: u64) -> bool {
    room.admin_ids is Some && room.admin_ids->0.contains(user_id)
}

/// Whether an entry of a list is the first one of a user.
pub open spec fn is_first_entry(users: Seq<UserRoomPermission>, user_id: u64, i: int) -> bool {
    &&& 0 <= i < users.len()
    &&& users[i].id == user_id
    &&& forall|j: int| 0 <= j < i ==> (#[trigger] users[j]).id != user_id
}

/// Whether a list has no entry of a user.
pub open spec fn has_no_entry(users: Seq<UserRoomPermission>, user_id: u64) -> bool {
    forall|j: int| 0 <= j < users.len() ==> (#[trigger] users[j]).id != user_id
}

/// What has to be set right is the first entry of a user who is no admin; a user
/// without an entry is to leave the room; for an admin nothing has to be done.
pub proof fn law_first_entry_is_noted(room: RoomView, user_id: u64, i: int)
    ensures
        adjustment(room, user_id) is None <==> names_admin(room, user_id),
        !names_admin(room, user_id) && room.user_permissions is None ==> adjustment(room, user_id)
            == Some(None::<NodePermissions>),
        !names_admin(room, user_id) && room.user_permissions is Some && is_first_entry(
            room.user_permissions->0,
            user_id,
            i,
        ) ==> adjustment(room, user_id) == Some(Some(room.user_permissions->0[i].permissions)),
        !names_admin(room, user_id) && room.user_permissions is Some && has_no_entry(
            room.user_permissions->0,
            user_id,
        ) ==> adjustment(room, user_id) == Some(None::<NodePermissions>),
{
    if let Some(users) = room.user_permissions {
        if 0 <= i < users.len() && users[i].id == user_id && (forall|j: int|
            0 <= j < i ==> (#[trigger] users[j]).id != user_id) {
            lemma_first_permissions(users, user_id, i);
        }
        if forall|j: int| 0 <= j < users.len() ==> (#[trigger] users[j]).id != user_id {
            lemma_no_permissions(users, user_id);
        }
    }
}

proof fn lemma_first_permissions(users: Seq<UserRoomPermission>, user_id: u64, i: int)
    requires
        0 <= i < users.len(),
        users[i].id == user_id,
        forall|j: int| 0 <= j < i ==> (#[trigger] users[j]).id != user_id,
    ensures
        first_permissions(users, user_id) == Some(users[i].permissions),
    decreases users.len(),
{
    if i > 0 {
        let rest = users.subrange(1, users.len() as int);
        assert(users[0].id != user_id);
        assert forall|j: int| 0 <= j < i - 1 implies (#[trigger] rest[j]).id != user_id by {
            assert(rest[j] == users[j + 1]);
        }
        lemma_first_permissions(rest, user_id, i - 1);
    }
}

proof fn lemma_no_permissions(users: Seq<UserRoomPermission>, user_id: u64)
    requires
        forall|j: int| 0 <= j < users.len() ==> (#[trigger] users[j]).id != user_id,
    ensures
        first_permissions(users, user_id) is None,
        last_permissions(users, user_id) is None,
    decreases users.len(),
{
    if users.len() > 0 {
        let rest = users.subrange(1, users.len() as int);
        let front = users.drop_last();
        assert(users[0].id != user_id);
        assert(users[users.len() - 1].id != user_id);
        assert forall|j: int| 0 <= j < rest.len() implies (#[trigger] rest[j]).id != user_id by {
            assert(rest[j] == users[j + 1]);
        }
        assert forall|j: int| 0 <= j < front.len() implies (#[trigger] front[j]).id != user_id by {
            assert(front[j] == users[j]);
        }
        lemma_no_permissions(rest, user_id);
        lemma_no_permissions(front, user_id);
    }
}

/// What is noted for a room is the only thing that changes among what is noted.
pub proof fn law_notes_are_by_room(
    adjustments: Map<u64, Option<NodePermissions>>,
    room_id: u64,
    permissions: Option<NodePermissions>,
)
    ensures
        with_adjustment(adjustments, room_id, None) == adjustments,
        with_adjustment(adjustments, room_id, Some(permissions)) == adjustments.insert(
            room_id,
            permissions,
        ),
{
}

/// What is noted for a room after the update of its users is the last entry of
/// the current user, as the import has it; without such an entry, nothing
/// changes.
pub proof fn law_last_entry_is_noted(
    adjustments: Map<u64, Option<NodePermissions>>,
    room_id: u64,
    users: Seq<UserRoomPermission>,
    user_id: u64,
    i: int,
)
    ensures
        0 <= i < users.len() && users[i].id == user_id && (forall|j: int|
            i < j < users.len() ==> (#[trigger] users[j]).id != user_id) ==> with_user_adjustment(
            adjustments,
            room_id,
            users,
            user_id,
        ) == adjustments.insert(room_id, Some(users[i].permissions)),
        (forall|j: int| 0 <= j < users.len() ==> (#[trigger] users[j]).id != user_id)
            ==> with_user_adjustment(adjustments, room_id, users, user_id) == adjustments,
{
    if 0 <= i < users.len() && users[i].id == user_id && (forall|j: int|
        i < j < users.len() ==> (#[trigger] users[j]).id != user_id) {
        lemma_last_permissions(users, user_id, i);
    }
    if forall|j: int| 0 <= j < users.len() ==> (#[trigger] users[j]).id != user_id {
        lemma_no_permissions(users, user_id);
    }
}

proof fn lemma_last_permissions(users: Seq<UserRoomPermission>, user_id: u64, i: int)
    requires
        0 <= i < users.len(),
        users[i].id == user_id,
        forall|j: int| i < j < users.len() ==> (#[trigger] users[j]).id != user_id,
    ensures
        last_permissions(users, user_id) == Some(users[i].permissions),
    decreases users.len(),
{
    if i < users.len() - 1 {
        let front = users.drop_last();
        assert(users[users.len() - 1].id != user_id);
        assert forall|j: int| i < j < front.len() implies (#[trigger] front[j]).id != user_id by {
            assert(front[j] == users[j]);
        }
        lemma_last_permissions(front, user_id, i);
    }
}

/// The update of the users of a room has one entry for each user, in their order
/// and with the same ids. All permissions are those of the import, but for the
/// right to manage of the current user, who has it for now.
pub proof fn law_updated_users(room: RoomView, room_id: RoomId, user_id: u64, i: int)
    requires
        room.user_permissions is Some,
        0 <= i < room.user_permissions->0.len(),
    ensures
        user_task(room, room_id, user_id) matches Some(TaskView::RoomUser(id, updates)) && {
            let user = room.user_permissions->0[i];
            &&& id == room_id
            &&& updates.len() == room.user_permissions->0.len()
            &&& updates[i].id == user.id
            &&& user.id != user_id ==> updates[i].permissions == user.permissions
            &&& user.id == user_id ==> updates[i].permissions == (NodePermissions {
                manage: true,
                ..user.permissions
            })
        },
{
}

/// The update of the groups of a room has the entries of the import, all of them,
/// as they are and in their order.
pub proof fn law_updated_groups(room: RoomView, room_id: RoomId)
    ensures
        room.group_permissions matches Some(groups) ==> group_task(room, room_id) == Some(
            TaskView::RoomGroup(room_id, groups),
        ),
        room.group_permissions is None ==> group_task(room, room_id) is None,
        room.user_permissions is None ==> forall|user_id: u64| #[trigger]
            user_task(room, room_id, user_id) is None,
        room.user_permissions is Some ==> forall|user_id: u64| #[trigger]
            user_task(room, room_id, user_id) is Some,
{
}

/// The update of the policies of a room carries what the import says on virus
/// protection, be it on, off or nothing, and its expiration period, or none at
/// all where it says nothing on that.
pub proof fn law_updated_policies(policies: RoomPolicies, room_id: RoomId)
    ensures
        policies_task(None, room_id) is None,
        policies_task(Some(policies), room_id) matches Some(TaskView::RoomPolicies(id, update)) && {
            &&& id == room_id
            &&& update.is_virus_protection_enabled == policies.is_virus_protection_enabled
            &&& policies.default_expiration_period matches Some(period)
                ==> update.default_expiration_period == period
            &&& policies.default_expiration_period is None ==> update.default_expiration_period == 0
        },
{
}

/// A room has one update for each of its groups, users and policies that the
/// import speaks of, in this order, and no other.
pub proof fn law_updates_of_room(room: RoomView, room_id: RoomId, user_id: u64)
    ensures
        ({
            let tasks = room_tasks(room, room_id, user_id);
            let groups: int = if room.group_permissions is Some {
                1
            } else {
                0
            };
            let users: int = if room.user_permissions is Some {
                1
            } else {
                0
            };
            let policies: int = if room.policies is Some {
                1
            } else {
                0
            };
            &&& tasks.len() == groups + users + policies
            &&& room.group_permissions is Some ==> Some(tasks[0]) == group_task(room, room_id)
            &&& room.user_permissions is Some ==> Some(tasks[groups]) == user_task(
                room,
                room_id,
                user_id,
            )
            &&& room.policies is Some ==> Some(tasks[groups + users]) == policies_task(
                room.policies,
                room_id,
            )
        }),
{
}

/// The view of a request shows every field of it.
pub proof fn law_request_view_shows_all(request: NewRoom)
    ensures
        request@.name == request.name@,
        request@.parent_id == request.parent_id,
        request@.classification == request.classification,
        request@.inherit_permissions == request.inherit_permissions,
        request@.quota == request.quota,
        request@.recycle_bin_retention_period == request.recycle_bin_retention_period,
        request@.new_group_member_acceptance == request.new_group_member_acceptance,
        request.admin_ids is None <==> request@.admin_ids is None,
        request.admin_ids matches Some(ids) ==> request@.admin_ids == Some(ids@),
        request.admin_group_ids is None <==> request@.admin_group_ids is None,
        request.admin_group_ids matches Some(ids) ==> request@.admin_group_ids == Some(ids@),
{
}

/// An optional update is seen as it is.
pub proof fn law_optional_task_shows_all(task: UpdateTask)
    ensures
        optional_task(Some(task)) == Some(task@),
        optional_task(None) is None,
{
}

}
