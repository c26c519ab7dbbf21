//! Rooms as they are imported and exported, and what a room's permissions are.
use vstd::prelude::*;
pub use crate::nodes::import::tasks::{
    RoomGroupTask, RoomPoliciesTask, RoomUserTask, UpdateTask, UpdateTaskType, UpdateTasksChannel,
};
use crate::text::{
    first_position, lemma_first_position, lemma_first_position_is, optional_text, same_text,
};

verus! {

/// How an upload is made.
pub struct UploadOptions {
    pub overwrite: bool,
    pub classification: Option<u8>,
    pub velocity: Option<u8>,
    pub recursive: bool,
    pub skip_root: bool,
    pub share: bool,
}

impl UploadOptions {
    /// The options with the given values.
    pub fn new(
        overwrite: bool,
        classification: Option<u8>,
        velocity: Option<u8>,
        recursive: bool,
        skip_root: bool,
        share: bool,
    ) -> (options: Self)
        ensures
            options == (UploadOptions {
                overwrite,
                classification,
                velocity,
                recursive,
                skip_root,
                share,
            }),
    {
        Self { overwrite, classification, velocity, recursive, skip_root, share }
    }
}

/// What a user or a group may do in a room.
#[derive(Debug, Clone, Copy, PartialEq, Eq, Structural)]
pub struct NodePermissions {
    pub manage: bool,
    pub read: bool,
    pub create: bool,
    pub change: bool,
    pub delete: bool,
    pub manage_download_share: bool,
    pub manage_upload_share: bool,
    pub read_recycle_bin: bool,
    pub restore_recycle_bin: bool,
    pub delete_recycle_bin: bool,
}

/// What becomes of users who join a group of a room.
#[derive(Debug, Clone, Copy, PartialEq, Eq, Structural)]
pub enum GroupMemberAcceptance {
    AutoAllow,
    Pending,
}

/// The permissions of a group in a room.
#[derive(Debug, Clone, Copy)]
pub struct GroupRoomPermission {
    pub id: u64,
    pub new_group_member_acceptance: Option<GroupMemberAcceptance>,
    pub permissions: NodePermissions,
}

/// The permissions of a user in a room.
#[derive(Debug, Clone, Copy)]
pub struct UserRoomPermission {
    pub id: u64,
    pub permissions: NodePermissions,
}

/// The policies of a room.
#[derive(Debug, Clone, Copy)]
pub struct RoomPolicies {
    pub default_expiration_period: Option<u64>,
    pub is_virus_protection_enabled: Option<bool>,
}

/// A room with its sub rooms.
#[derive(Debug)]
pub struct Room {
    pub name: String,
    pub recycle_bin_retention_period: Option<u32>,
    pub quota: Option<u64>,
    pub inherit_permissions: Option<bool>,
    pub admin_ids: Option<Vec<u64>>,
    pub admin_group_ids: Option<Vec<u64>>,
    pub user_permissions: Option<Vec<UserRoomPermission>>,
    pub group_permissions: Option<Vec<GroupRoomPermission>>,
    pub new_group_member_acceptance: Option<GroupMemberAcceptance>,
    pub classification: Option<u8>,
    pub policies: Option<RoomPolicies>,
    pub sub_rooms: Option<Vec<Room>>,
    /// Where an exported room stands; imported rooms have none.
    pub complete_path: Option<String>,
}

/// A room with its texts and lists as sequences.
pub struct RoomView {
    pub name: Seq<char>,
    pub recycle_bin_retention_period: Option<u32>,
    pub quota: Option<u64>,
    pub inherit_permissions: Option<bool>,
    pub admin_ids: Option<Seq<u64>>,
    pub admin_group_ids: Option<Seq<u64>>,
    pub user_permissions: Option<Seq<UserRoomPermission>>,
    pub group_permissions: Option<Seq<GroupRoomPermission>>,
    pub new_group_member_acceptance: Option<GroupMemberAcceptance>,
    pub classification: Option<u8>,
    pub policies: Option<RoomPolicies>,
    pub sub_rooms: Option<Seq<RoomView>>,
    pub complete_path: Option<Seq<char>>,
}

/// The elements of an optional list.
pub open spec fn optional_seq<T>(list: Option<Vec<T>>) -> Option<Seq<T>> {
    match list {
        Some(v) => Some(v@),
        None => None,
    }
}

/// A room as it is seen in contracts.
pub open spec fn room_view(room: Room) -> RoomView
    decreases room,
{
    RoomView {
        name: room.name@,
        recycle_bin_retention_period: room.recycle_bin_retention_period,
        quota: room.quota,
        inherit_permissions: room.inherit_permissions,
        admin_ids: optional_seq(room.admin_ids),
        admin_group_ids: optional_seq(room.admin_group_ids),
        user_permissions: optional_seq(room.user_permissions),
        group_permissions: optional_seq(room.group_permissions),
        new_group_member_acceptance: room.new_group_member_acceptance,
        classification: room.classification,
        policies: room.policies,
        sub_rooms: match room.sub_rooms {
            Some(v) => Some(
                Seq::new(
                    v@.len(),
                    |i: int|
                        if 0 <= i < v@.len() {
                            room_view(v@[i])
                        } else {
                            arbitrary()
                        },
                ),
            ),
            None => None,
        },
        complete_path: optional_text(room.complete_path),
    }
}

impl View for Room {
    type V = RoomView;

    open spec fn view(&self) -> RoomView {
        room_view(*self)
    }
}

/// The rooms of a list, seen as [`RoomView`]s.
pub open spec fn rooms_view(rooms: Seq<Room>) -> Seq<RoomView> {
    rooms.map_values(|room: Room| room@)
}

/// The sub rooms of a room, none where it has no list of them.
pub open spec fn sub_rooms_of(room: RoomView) -> Seq<RoomView> {
    match room.sub_rooms {
        Some(rooms) => rooms,
        None => Seq::empty(),
    }
}

/// A room's view shows its sub rooms by their views.
pub broadcast proof fn lemma_sub_rooms_view(room: Room)
    ensures
        #![trigger room@.sub_rooms]
        room@.sub_rooms == (match room.sub_rooms {
            Some(v) => Some(rooms_view(v@)),
            None => None,
        }),
{
    if let Some(v) = room.sub_rooms {
        assert(room@.sub_rooms->0 =~= rooms_view(v@));
    }
}

/// A room of which nothing is known but its name.
pub open spec fn named_room(name: Seq<char>) -> RoomView {
    RoomView {
        name,
        recycle_bin_retention_period: None,
        quota: None,
        inherit_permissions: None,
        admin_ids: None,
        admin_group_ids: None,
        user_permissions: None,
        group_permissions: None,
        new_group_member_acceptance: None,
        classification: None,
        policies: None,
        sub_rooms: None,
        complete_path: None,
    }
}

impl Default for Room {
    /// A room without a name and without anything else.
    fn default() -> (room: Room)
        ensures
            room@ == named_room(Seq::empty()),
    {
        Room {
            name: String::new(),
            recycle_bin_retention_period: None,
            quota: None,
            inherit_permissions: None,
            admin_ids: None,
            admin_group_ids: None,
            user_permissions: None,
            group_permissions: None,
            new_group_member_acceptance: None,
            classification: None,
            policies: None,
            sub_rooms: None,
            complete_path: None,
        }
    }
}

/// A copy of an optional list of plain values.
pub fn copy_list<T: Copy>(list: &Option<Vec<T>>) -> (copy: Option<Vec<T>>)
    ensures
        optional_seq(copy) == optional_seq(*list),
{
    match list {
        Some(values) => {
            let mut copied: Vec<T> = Vec::new();
            let mut i: usize = 0;
            while i < values.len()
                invariant
                    i <= values.len(),
                    copied@ == values@.take(i as int),
                decreases values.len() - i,
            {
                copied.push(values[i]);
                assert(values@.take(i + 1) =~= values@.take(i as int).push(values@[i as int]));
                i += 1;
            }
            assert(values@.take(i as int) =~= values@);
            Some(copied)
        },
        None => None,
    }
}

/// A copy of an optional text.
pub fn copy_text(text: &Option<String>) -> (copy: Option<String>)
    ensures
        optional_text(copy) == optional_text(*text),
{
    match text {
        Some(s) => Some(s.clone()),
        None => None,
    }
}

impl Clone for Room {
    /// A copy of the room and of all its sub rooms.
    fn clone(&self) -> (copy: Room)
        ensures
            copy@ == self@,
        decreases self,
    {
        broadcast use lemma_sub_rooms_view;

        let sub_rooms = match &self.sub_rooms {
            Some(rooms) => Some(clone_rooms(rooms)),
            None => None,
        };
        let copy = Room {
            name: self.name.clone(),
            recycle_bin_retention_period: self.recycle_bin_retention_period,
            quota: self.quota,
            inherit_permissions: self.inherit_permissions,
            admin_ids: copy_list(&self.admin_ids),
            admin_group_ids: copy_list(&self.admin_group_ids),
            user_permissions: copy_list(&self.user_permissions),
            group_permissions: copy_list(&self.group_permissions),
            new_group_member_acceptance: self.new_group_member_acceptance,
            classification: self.classification,
            policies: self.policies,
            sub_rooms,
            complete_path: copy_text(&self.complete_path),
        };
        assert(copy@.sub_rooms == self@.sub_rooms);
        copy
    }
}

/// Copies of all rooms of a list.
pub fn clone_rooms(rooms: &Vec<Room>) -> (copies: Vec<Room>)
    ensures
        rooms_view(copies@) == rooms_view(rooms@),
    decreases rooms,
{
    let mut copies: Vec<Room> = Vec::new();
    let mut i: usize = 0;
    while i < rooms.len()
        invariant
            i <= rooms.len(),
            rooms_view(copies@) == rooms_view(rooms@).take(i as int),
        decreases rooms.len() - i,
    {
        assert(decreases_to!(rooms => rooms@));
        assert(decreases_to!(rooms@ => rooms@[i as int]));
        let ghost before = copies@;
        copies.push(rooms[i].clone());
        assert(rooms_view(copies@) =~= rooms_view(before).push(rooms@[i as int]@));
        assert(rooms_view(rooms@).take(i + 1) =~= rooms_view(rooms@).take(i as int).push(
            rooms@[i as int]@,
        ));
        i += 1;
    }
    assert(rooms_view(rooms@).take(i as int) =~= rooms_view(rooms@));
    copies
}

/// The names of rooms.
pub open spec fn names(rooms: Seq<RoomView>) -> Seq<Seq<char>> {
    rooms.map_values(|room: RoomView| room.name)
}

/// Whether no two rooms have the same name.
pub open spec fn distinct_names(rooms: Seq<RoomView>) -> bool {
    forall|i: int, j: int| 0 <= i < j < rooms.len() ==> rooms[i].name != rooms[j].name
}

/// The position of the first room with a name.
pub fn position_by_name(rooms: &Vec<Room>, name: &str) -> (position: Option<usize>)
    ensures
        match position {
            Some(i) => first_position(names(rooms_view(rooms@)), name@) == Some(i as int) && i
                < rooms@.len(),
            None => first_position(names(rooms_view(rooms@)), name@) is None,
        },
{
    let ghost all = names(rooms_view(rooms@));
    let mut i: usize = 0;
    while i < rooms.len()
        invariant
            i <= rooms.len(),
            all == names(rooms_view(rooms@)),
            all.len() == rooms@.len(),
            forall|j: int| 0 <= j < i ==> all[j] != name@,
        decreases rooms.len() - i,
    {
        assert(all[i as int] == rooms@[i as int]@.name);
        if same_text(rooms[i].name.as_str(), name) {
            proof {
                lemma_first_position_is(all, name@, i as int);
            }
            return Some(i);
        }
        i += 1;
    }
    proof {
        lemma_first_position(all, name@);
    }
    None
}

/// The rooms of an import, and how many there are.
#[derive(Debug)]
pub struct RoomImport {
    pub total_room_count: u64,
    pub rooms: Vec<Room>,
}

/// The id of a room.
#[derive(Debug, Clone, Copy, PartialEq, Eq, Structural, Hash)]
pub struct RoomId(pub u64);

// ---------------------------------------------------------------- laws

/// The view of a room shows every field of it.
pub proof fn law_room_view_shows_all(room: Room)
    ensures
        room@.name == room.name@,
        room@.recycle_bin_retention_period == room.recycle_bin_retention_period,
        room@.quota == room.quota,
        room@.inherit_permissions == room.inherit_permissions,
        room@.new_group_member_acceptance == room.new_group_member_acceptance,
        room@.classification == room.classification,
        room@.policies == room.policies,
        room.admin_ids is None <==> room@.admin_ids is None,
        room.admin_ids matches Some(ids) ==> room@.admin_ids == Some(ids@),
        room.admin_group_ids is None <==> room@.admin_group_ids is None,
        room.admin_group_ids matches Some(ids) ==> room@.admin_group_ids == Some(ids@),
        room.user_permissions is None <==> room@.user_permissions is None,
        room.user_permissions matches Some(users) ==> room@.user_permissions == Some(users@),
        room.group_permissions is None <==> room@.group_permissions is None,
        room.group_permissions matches Some(groups) ==> room@.group_permissions == Some(groups@),
        room.complete_path is None <==> room@.complete_path is None,
        room.complete_path matches Some(path) ==> room@.complete_path == Some(path@),
        room.sub_rooms is None <==> room@.sub_rooms is None,
        room.sub_rooms matches Some(rooms) ==> room@.sub_rooms is Some && room@.sub_rooms->0.len()
            == rooms@.len() && forall|i: int|
            0 <= i < rooms@.len() ==> #[trigger] room@.sub_rooms->0[i] == rooms@[i]@,
        room@.sub_rooms is None ==> sub_rooms_of(room@).len() == 0,
        room@.sub_rooms is Some ==> sub_rooms_of(room@) == room@.sub_rooms->0,
{
    lemma_sub_rooms_view(room);
}

/// The views of the rooms of a list are in their order, and so are their names.
pub proof fn law_rooms_view_keeps_order(rooms: Seq<Room>, i: int)
    requires
        0 <= i < rooms.len(),
    ensures
        rooms_view(rooms).len() == rooms.len(),
        rooms_view(rooms)[i] == rooms[i]@,
        names(rooms_view(rooms)).len() == rooms.len(),
        names(rooms_view(rooms))[i] == rooms[i].name@,
{
}

/// A room of which only the name is known says nothing else.
pub proof fn law_named_room_says_nothing(name: Seq<char>)
    ensures
        named_room(name).name == name,
        named_room(name).recycle_bin_retention_period is None,
        named_room(name).quota is None,
        named_room(name).inherit_permissions is None,
        named_room(name).admin_ids is None,
        named_room(name).admin_group_ids is None,
        named_room(name).user_permissions is None,
        named_room(name).group_permissions is None,
        named_room(name).new_group_member_acceptance is None,
        named_room(name).classification is None,
        named_room(name).policies is None,
        named_room(name).sub_rooms is None,
        named_room(name).complete_path is None,
{
}

}
