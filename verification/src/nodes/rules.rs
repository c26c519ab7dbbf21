//! The rules that every imported room has to follow.
use vstd::prelude::*;
use vstd::utf8::encode_utf8;
use crate::models::{outcome, DcCmdError, ErrorView};
use crate::nodes::models::{
    lemma_sub_rooms_view, rooms_view, sub_rooms_of, GroupRoomPermission, Room, RoomView,
    UserRoomPermission,
};
use crate::nodes::tree::{
    lemma_preorder, lemma_preorder_all_split, lemma_preorder_all_take, preorder, preorder_all,
};
use crate::paths::is_part;
use crate::text::{chars_of, decimal, decimal_text, join3};
use vstd::string::StringExecFns;

verus! {

// ---------------------------------------------------------------- admins

/// Whether a list is there and is not empty.
pub open spec fn is_filled<T>(list: Option<Seq<T>>) -> bool {
    list is Some && list->0.len() > 0
}

/// Whether one of the users may manage the room.
pub open spec fn some_user_manages(list: Option<Seq<UserRoomPermission>>) -> bool {
    list matches Some(users) && exists|i: int| 0 <= i < users.len() && (#[trigger] users[i]).permissions.manage
}

/// Whether one of the groups may manage the room.
pub open spec fn some_group_manages(list: Option<Seq<GroupRoomPermission>>) -> bool {
    list matches Some(groups) && exists|i: int|
        0 <= i < groups.len() && (#[trigger] groups[i]).permissions.manage
}

/// Whether somebody can administrate a room: an admin, an admin group, a user
/// or a group that may manage it, or whoever administrates its parent.
pub open spec fn room_has_admin(room: RoomView) -> bool {
    ||| is_filled(room.admin_ids)
    ||| is_filled(room.admin_group_ids)
    ||| some_user_manages(room.user_permissions)
    ||| some_group_manages(room.group_permissions)
    ||| room.inherit_permissions == Some(true)
}

impl Room {
    /// Whether the room names admins.
    pub fn has_admin_ids(&self) -> (has: bool)
        ensures
            has == is_filled(self@.admin_ids),
    {
        match &self.admin_ids {
            Some(ids) => !ids.is_empty(),
            None => false,
        }
    }

    /// Whether the room names admin groups.
    pub fn has_group_admin_ids(&self) -> (has: bool)
        ensures
            has == is_filled(self@.admin_group_ids),
    {
        match &self.admin_group_ids {
            Some(ids) => !ids.is_empty(),
            None => false,
        }
    }

    /// Whether one of the room's users may manage it.
    pub fn has_user_permissions_with_manage(&self) -> (has: bool)
        ensures
            has == some_user_manages(self@.user_permissions),
    {
        match &self.user_permissions {
            Some(users) => {
                let mut i: usize = 0;
                while i < users.len()
                    invariant
                        i <= users.len(),
                        self@.user_permissions == Some(users@),
                        forall|j: int| 0 <= j < i ==> !(#[trigger] users@[j]).permissions.manage,
                    decreases users.len() - i,
                {
                    if users[i].permissions.manage {
                        assert(self@.user_permissions->0[i as int].permissions.manage);
                        return true;
                    }
                    i += 1;
                }
                false
            },
            None => false,
        }
    }

    /// Whether one of the room's groups may manage it.
    pub fn has_group_permissions_with_manage(&self) -> (has: bool)
        ensures
            has == some_group_manages(self@.group_permissions),
    {
        match &self.group_permissions {
            Some(groups) => {
                let mut i: usize = 0;
                while i < groups.len()
                    invariant
                        i <= groups.len(),
                        self@.group_permissions == Some(groups@),
                        forall|j: int| 0 <= j < i ==> !(#[trigger] groups@[j]).permissions.manage,
                    decreases groups.len() - i,
                {
                    if groups[i].permissions.manage {
                        assert(self@.group_permissions->0[i as int].permissions.manage);
                        return true;
                    }
                    i += 1;
                }
                false
            },
            None => false,
        }
    }

    fn can_be_administrated(&self) -> (can: bool)
        ensures
            can == room_has_admin(self@),
    {
        self.has_admin_ids() || self.has_group_admin_ids() || self.has_user_permissions_with_manage()
            || self.has_group_permissions_with_manage() || (match self.inherit_permissions {
            Some(inherit) => inherit,
            None => false,
        })
    }
}

// ---------------------------------------------------------------- conflicts

/// Whether an id stands in a list.
pub fn contains_id(ids: &Vec<u64>, id: u64) -> (found: bool)
    ensures
        found == ids@.contains(id),
{
    let mut i: usize = 0;
    while i < ids.len()
        invariant
            i <= ids.len(),
            forall|j: int| 0 <= j < i ==> ids@[j] != id,
        decreases ids.len() - i,
    {
        if ids[i] == id {
            return true;
        }
        i += 1;
    }
    false
}

/// Whether a user is an admin of the room but has permissions without the
/// right to manage it.
pub open spec fn conflicts(admins: Seq<u64>, user: UserRoomPermission) -> bool {
    admins.contains(user.id) && !user.permissions.manage
}

/// Whether a room's admins and its user permissions contradict each other.
pub open spec fn has_conflict(room: RoomView) -> bool {
    match (room.admin_ids, room.user_permissions) {
        (Some(admins), Some(users)) => exists|i: int|
            0 <= i < users.len() && conflicts(admins, #[trigger] users[i]),
        _ => false,
    }
}

/// The id of the first user whose permissions conflict with being an admin.
pub open spec fn first_conflicting_user(admins: Seq<u64>, users: Seq<UserRoomPermission>) -> u64
    decreases users.len(),
{
    if users.len() == 0 {
        0
    } else if conflicts(admins, users[0]) {
        users[0].id
    } else {
        first_conflicting_user(admins, users.subrange(1, users.len() as int))
    }
}

/// The message on a room with conflicting permissions.
pub open spec fn conflict_message(room: RoomView) -> Seq<char> {
    "Room '"@ + room.name + "' has conflicting permissions. User with ID '"@ + decimal_text(
        first_conflicting_user(room.admin_ids->0, room.user_permissions->0) as nat,
    ) + "' is an admin and has conflicting user permissions. Remove the user permission"@
}

/// The id of the first user whose permissions conflict with being an admin.
fn find_conflicting_user(admins: &Vec<u64>, users: &Vec<UserRoomPermission>) -> (id: u64)
    ensures
        id == first_conflicting_user(admins@, users@),
{
    let mut i: usize = 0;
    assert(users@.subrange(0, users@.len() as int) =~= users@);
    while i < users.len()
        invariant
            i <= users.len(),
            first_conflicting_user(admins@, users@) == first_conflicting_user(
                admins@,
                users@.subrange(i as int, users@.len() as int),
            ),
        decreases users.len() - i,
    {
        if contains_id(admins, users[i].id) && !users[i].permissions.manage {
            return users[i].id;
        }
        proof {
            let rest = users@.subrange(i as int, users@.len() as int);
            assert(rest.subrange(1, rest.len() as int) =~= users@.subrange(
                i + 1,
                users@.len() as int,
            ));
        }
        i += 1;
    }
    0
}

// ---------------------------------------------------------------- names

/// The characters that no room name may hold.
pub open spec fn is_illegal_character(c: char) -> bool {
    c == '/' || c == '\\' || c == '?' || c == '%' || c == '*' || c == ':' || c == '|' || c == '"' || c
        == '<' || c == '>' || c == '.'
}

/// The characters that may not stand in the name of a room in an import whose
/// templates are rendered.
pub open spec fn is_reserved_character(c: char) -> bool {
    c == '\\' || c == '/' || c == ':' || c == '*' || c == '?' || c == '"' || c == '<' || c == '>' || c
        == '|'
}

/// Whether a name holds a character of a kind.
pub open spec fn holds(name: Seq<char>, kind: spec_fn(char) -> bool) -> bool {
    exists|i: int| 0 <= i < name.len() && kind(#[trigger] name[i])
}

/// Whether a name is longer than 255 bytes.
pub open spec fn is_too_long(name: Seq<char>) -> bool {
    encode_utf8(name).len() > 255
}

/// Whether a name starts with a hyphen.
pub open spec fn begins_with_hyphen(name: Seq<char>) -> bool {
    name.len() > 0 && name[0] == '-'
}

/// Whether a name ends with a period.
pub open spec fn ends_with_period(name: Seq<char>) -> bool {
    name.len() > 0 && name.last() == '.'
}

/// The message `Room 'name'` with an ending.
pub open spec fn room_message(name: Seq<char>, ending: Seq<char>) -> Seq<char> {
    "Room '"@ + name + ending
}

/// What is wrong with the length, the start or the end of a name.
pub open spec fn name_shape_error(name: Seq<char>) -> Option<ErrorView> {
    if is_too_long(name) {
        Some(ErrorView::IllegalRoomName(room_message(name, "' name is too long."@)))
    } else if begins_with_hyphen(name) {
        Some(ErrorView::IllegalRoomName(room_message(name, "' name begins with a hyphen."@)))
    } else if ends_with_period(name) {
        Some(ErrorView::IllegalRoomName(room_message(name, "' name ends with a period."@)))
    } else {
        None
    }
}

/// What is wrong with a room name.
pub open spec fn name_error(name: Seq<char>) -> Option<ErrorView> {
    if holds(name, |c: char| is_illegal_character(c)) {
        Some(ErrorView::IllegalRoomName(room_message(name, "' name contains illegal character."@)))
    } else {
        name_shape_error(name)
    }
}

/// What is wrong with the name of a room in an import whose templates are
/// rendered.
pub open spec fn reserved_name_error(name: Seq<char>) -> Option<ErrorView> {
    if holds(name, |c: char| is_reserved_character(c)) {
        Some(ErrorView::IllegalRoomName(room_message(name, "' contains illegal character."@)))
    } else {
        name_shape_error(name)
    }
}

/// A legal name that is not empty can be one part of a path.
pub proof fn law_legal_name_is_part(name: Seq<char>)
    requires
        name_error(name) is None,
        name.len() > 0,
    ensures
        is_part(name),
{
    let illegal = |c: char| is_illegal_character(c);
    if name.contains('/') {
        let i = choose|i: int| 0 <= i < name.len() && name[i] == '/';
        assert(illegal(name[i]));
    }
}

/// Success where there is no error, and that error otherwise.
pub open spec fn verdict(error: Option<ErrorView>) -> Result<(), ErrorView> {
    match error {
        Some(e) => Err(e),
        None => Ok(()),
    }
}

/// An error where a condition holds.
pub open spec fn error_if(wrong: bool, error: ErrorView) -> Result<(), ErrorView> {
    if wrong {
        Err(error)
    } else {
        Ok(())
    }
}

impl Room {
    fn named_message(&self, ending: &str) -> (message: String)
        ensures
            message@ == room_message(self@.name, ending@),
    {
        join3("Room '", self.name.as_str(), ending)
    }

    /// Refuses a name with an illegal character.
    pub fn check_for_illegal_characters(&self) -> (result: Result<(), DcCmdError>)
        ensures
            outcome(result) == error_if(
                holds(self@.name, |c: char| is_illegal_character(c)),
                ErrorView::IllegalRoomName(
                    room_message(self@.name, "' name contains illegal character."@),
                ),
            ),
    {
        let chars = chars_of(self.name.as_str());
        let ghost illegal = |c: char| is_illegal_character(c);
        let mut i: usize = 0;
        while i < chars.len()
            invariant
                i <= chars.len(),
                chars@ == self@.name,
                illegal == (|c: char| is_illegal_character(c)),
                forall|j: int| 0 <= j < i ==> !illegal(#[trigger] chars@[j]),
            decreases chars.len() - i,
        {
            let c = chars[i];
            if c == '/' || c == '\\' || c == '?' || c == '%' || c == '*' || c == ':' || c == '|' || c
                == '"' || c == '<' || c == '>' || c == '.' {
                assert(illegal(self@.name[i as int]));
                return Err(
                    DcCmdError::IllegalRoomName(
                        self.named_message("' name contains illegal character."),
                    ),
                );
            }
            i += 1;
        }
        Ok(())
    }

    /// Refuses a name with a reserved character.
    fn check_for_reserved_characters(&self) -> (result: Result<(), DcCmdError>)
        ensures
            outcome(result) == error_if(
                holds(self@.name, |c: char| is_reserved_character(c)),
                ErrorView::IllegalRoomName(
                    room_message(self@.name, "' contains illegal character."@),
                ),
            ),
    {
        let chars = chars_of(self.name.as_str());
        let ghost reserved = |c: char| is_reserved_character(c);
        let mut i: usize = 0;
        while i < chars.len()
            invariant
                i <= chars.len(),
                chars@ == self@.name,
                reserved == (|c: char| is_reserved_character(c)),
                forall|j: int| 0 <= j < i ==> !reserved(#[trigger] chars@[j]),
            decreases chars.len() - i,
        {
            let c = chars[i];
            if c == '\\' || c == '/' || c == ':' || c == '*' || c == '?' || c == '"' || c == '<' || c
                == '>' || c == '|' {
                assert(reserved(self@.name[i as int]));
                return Err(
                    DcCmdError::IllegalRoomName(self.named_message("' contains illegal character.")),
                );
            }
            i += 1;
        }
        Ok(())
    }

    /// Refuses a name of more than 255 bytes.
    pub fn check_room_name_too_long(&self) -> (result: Result<(), DcCmdError>)
        ensures
            outcome(result) == error_if(
                is_too_long(self@.name),
                ErrorView::IllegalRoomName(room_message(self@.name, "' name is too long."@)),
            ),
    {
        if self.name.as_str().as_bytes().len() > 255 {
            return Err(DcCmdError::IllegalRoomName(self.named_message("' name is too long.")));
        }
        Ok(())
    }

    /// Refuses a name that starts with a hyphen.
    pub fn check_room_name_begins_with_hyphen(&self) -> (result: Result<(), DcCmdError>)
        ensures
            outcome(result) == error_if(
                begins_with_hyphen(self@.name),
                ErrorView::IllegalRoomName(room_message(self@.name, "' name begins with a hyphen."@)),
            ),
    {
        let chars = chars_of(self.name.as_str());
        if chars.len() > 0 && chars[0] == '-' {
            return Err(
                DcCmdError::IllegalRoomName(self.named_message("' name begins with a hyphen.")),
            );
        }
        Ok(())
    }

    /// Refuses a name that ends with a period.
    pub fn check_room_name_ends_with_period(&self) -> (result: Result<(), DcCmdError>)
        ensures
            outcome(result) == error_if(
                ends_with_period(self@.name),
                ErrorView::IllegalRoomName(room_message(self@.name, "' name ends with a period."@)),
            ),
    {
        let chars = chars_of(self.name.as_str());
        if chars.len() > 0 && chars[chars.len() - 1] == '.' {
            return Err(
                DcCmdError::IllegalRoomName(self.named_message("' name ends with a period.")),
            );
        }
        Ok(())
    }

    fn check_name_shape(&self) -> (result: Result<(), DcCmdError>)
        ensures
            outcome(result) == verdict(name_shape_error(self@.name)),
    {
        self.check_room_name_too_long()?;
        self.check_room_name_begins_with_hyphen()?;
        self.check_room_name_ends_with_period()
    }

    /// Refuses a room that nobody can administrate.
    pub fn has_admin(&self) -> (result: Result<(), DcCmdError>)
        ensures
            outcome(result) == verdict(rule_error(RoomRule::HasAdmin, self@)),
    {
        if self.can_be_administrated() {
            Ok(())
        } else {
            Err(
                DcCmdError::ImportedRoomHasNoAdmin(
                    self.named_message("' does not have an admin."),
                ),
            )
        }
    }

    /// Refuses a room whose admins and user permissions contradict each other.
    pub fn check_own_permissions(&self) -> (result: Result<(), DcCmdError>)
        ensures
            outcome(result) == verdict(rule_error(RoomRule::NoConflict, self@)),
    {
        match (&self.admin_ids, &self.user_permissions) {
            (Some(admins), Some(users)) => {
                let mut i: usize = 0;
                while i < users.len()
                    invariant
                        i <= users.len(),
                        self@.admin_ids == Some(admins@),
                        self@.user_permissions == Some(users@),
                        forall|j: int| 0 <= j < i ==> !conflicts(admins@, #[trigger] users@[j]),
                    decreases users.len() - i,
                {
                    if contains_id(admins, users[i].id) && !users[i].permissions.manage {
                        assert(conflicts(
                            self@.admin_ids->0,
                            self@.user_permissions->0[i as int],
                        ));
                        let id = find_conflicting_user(admins, users);
                        let message = join3(
                            "Room '",
                            self.name.as_str(),
                            "' has conflicting permissions. User with ID '",
                        ).concat(decimal(id).as_str()).concat(
                            "' is an admin and has conflicting user permissions. Remove the user permission",
                        );
                        return Err(DcCmdError::ConflictingRoomPermissions(message));
                    }
                    i += 1;
                }
                Ok(())
            },
            _ => Ok(()),
        }
    }
}

// ---------------------------------------------------------------- rules

/// A rule on a single room.
#[derive(Clone, Copy)]
pub enum RoomRule {
    /// Somebody can administrate the room.
    HasAdmin,
    /// The room name is legal.
    LegalName,
    /// The admins and the user permissions agree.
    NoConflict,
    /// Somebody can administrate the room, in the words of an import whose
    /// templates are rendered.
    HasAdminOrInherits,
    /// The room name holds no reserved character and has a legal shape.
    UnreservedName,
}

/// How a room breaks a rule.
pub open spec fn rule_error(rule: RoomRule, room: RoomView) -> Option<ErrorView> {
    match rule {
        RoomRule::HasAdmin => if room_has_admin(room) {
            None
        } else {
            Some(
                ErrorView::ImportedRoomHasNoAdmin(
                    room_message(room.name, "' does not have an admin."@),
                ),
            )
        },
        RoomRule::LegalName => name_error(room.name),
        RoomRule::NoConflict => if has_conflict(room) {
            Some(ErrorView::ConflictingRoomPermissions(conflict_message(room)))
        } else {
            None
        },
        RoomRule::HasAdminOrInherits => if room_has_admin(room) {
            None
        } else {
            Some(
                ErrorView::ImportedRoomHasNoAdmin(
                    room_message(
                        room.name,
                        "' does not have an admin and inheritance is disabled."@,
                    ),
                ),
            )
        },
        RoomRule::UnreservedName => reserved_name_error(room.name),
    }
}

/// The first error that the rooms of a list have under a rule.
pub open spec fn first_error(rule: RoomRule, rooms: Seq<RoomView>) -> Option<ErrorView>
    decreases rooms.len(),
{
    if rooms.len() == 0 {
        None
    } else {
        match first_error(rule, rooms.drop_last()) {
            Some(error) => Some(error),
            None => rule_error(rule, rooms.last()),
        }
    }
}

proof fn lemma_first_error_concat(rule: RoomRule, a: Seq<RoomView>, b: Seq<RoomView>)
    ensures
        first_error(rule, a + b) == (match first_error(rule, a) {
            Some(error) => Some(error),
            None => first_error(rule, b),
        }),
    decreases b.len(),
{
    if b.len() == 0 {
        assert(a + b =~= a);
    } else {
        lemma_first_error_concat(rule, a, b.drop_last());
        assert((a + b).drop_last() =~= a + b.drop_last());
        assert((a + b).last() == b.last());
    }
}

/// A list of rooms has no error under a rule exactly if every one of its rooms
/// follows the rule.
pub proof fn law_no_error_means_every_room(rule: RoomRule, rooms: Seq<RoomView>)
    ensures
        first_error(rule, rooms) is None <==> (forall|i: int|
            0 <= i < rooms.len() ==> rule_error(rule, #[trigger] rooms[i]) is None),
    decreases rooms.len(),
{
    if rooms.len() > 0 {
        let front = rooms.drop_last();
        law_no_error_means_every_room(rule, front);
        assert forall|i: int| 0 <= i < front.len() implies rooms[i] == #[trigger] front[i] by {}
        if first_error(rule, rooms) is None {
            assert forall|i: int| 0 <= i < rooms.len() implies rule_error(
                rule,
                #[trigger] rooms[i],
            ) is None by {
                if i < front.len() {
                    assert(rule_error(rule, front[i]) is None);
                }
            }
        } else if first_error(rule, front) is Some {
            let i = choose|i: int| 0 <= i < front.len() && rule_error(rule, #[trigger] front[i]) is Some;
            assert(rule_error(rule, rooms[i]) is Some);
        } else {
            assert(rule_error(rule, rooms[rooms.len() - 1]) is Some);
        }
    }
}

/// Holds a single room to a rule.
fn check_room(rule: RoomRule, room: &Room) -> (result: Result<(), DcCmdError>)
    ensures
        outcome(result) == verdict(rule_error(rule, room@)),
{
    match rule {
        RoomRule::HasAdmin => room.has_admin(),
        RoomRule::LegalName => {
            room.check_for_illegal_characters()?;
            room.check_name_shape()
        },
        RoomRule::NoConflict => room.check_own_permissions(),
        RoomRule::HasAdminOrInherits => {
            if room.can_be_administrated() {
                Ok(())
            } else {
                Err(
                    DcCmdError::ImportedRoomHasNoAdmin(
                        room.named_message("' does not have an admin and inheritance is disabled."),
                    ),
                )
            }
        },
        RoomRule::UnreservedName => {
            room.check_for_reserved_characters()?;
            room.check_name_shape()
        },
    }
}

/// Holds a room and all rooms below it to a rule.
fn check_tree(rule: RoomRule, room: &Room) -> (result: Result<(), DcCmdError>)
    ensures
        outcome(result) == verdict(first_error(rule, preorder(room@))),
    decreases room,
{
    broadcast use lemma_sub_rooms_view;

    proof {
        lemma_preorder(room@);
        lemma_first_error_concat(rule, seq![room@], preorder_all(sub_rooms_of(room@)));
        assert(seq![room@].drop_last() =~= Seq::<RoomView>::empty());
        assert(first_error(rule, seq![room@].drop_last()) is None);
        assert(first_error(rule, seq![room@]) == rule_error(rule, room@));
    }
    check_room(rule, room)?;
    if let Some(sub_rooms) = &room.sub_rooms {
        check_forest(rule, sub_rooms)
    } else {
        assert(preorder_all(sub_rooms_of(room@)) =~= Seq::<RoomView>::empty());
        Ok(())
    }
}

/// Holds all rooms of a list and below it to a rule.
fn check_forest(rule: RoomRule, rooms: &Vec<Room>) -> (result: Result<(), DcCmdError>)
    ensures
        outcome(result) == verdict(first_error(rule, preorder_all(rooms_view(rooms@)))),
    decreases rooms,
{
    let ghost all = rooms_view(rooms@);
    let mut i: usize = 0;
    assert(preorder_all(all.take(0)) =~= Seq::<RoomView>::empty());
    while i < rooms.len()
        invariant
            i <= rooms.len(),
            all == rooms_view(rooms@),
            first_error(rule, preorder_all(all.take(i as int))) is None,
        decreases rooms.len() - i,
    {
        assert(decreases_to!(rooms => rooms@));
        assert(decreases_to!(rooms@ => rooms@[i as int]));
        proof {
            lemma_preorder_all_take(all, i as int);
            lemma_first_error_concat(
                rule,
                preorder_all(all.take(i as int)),
                preorder(all[i as int]),
            );
            lemma_preorder_all_split(all, i + 1);
            lemma_first_error_concat(
                rule,
                preorder_all(all.take(i + 1)),
                preorder_all(all.subrange(i + 1, all.len() as int)),
            );
        }
        check_tree(rule, &rooms[i])?;
        i += 1;
    }
    assert(all.take(i as int) =~= all);
    Ok(())
}

impl Room {
    /// Refuses a tree with a room that nobody can administrate.
    pub fn check_self_and_sub_rooms_for_admin(&self) -> (result: Result<(), DcCmdError>)
        ensures
            outcome(result) == verdict(first_error(RoomRule::HasAdmin, preorder(self@))),
    {
        check_tree(RoomRule::HasAdmin, self)
    }

    /// Refuses a tree with a room that has conflicting permissions.
    pub fn check_self_and_sub_rooms_for_conflicting_permissions(&self) -> (result: Result<
        (),
        DcCmdError,
    >)
        ensures
            outcome(result) == verdict(first_error(RoomRule::NoConflict, preorder(self@))),
    {
        check_tree(RoomRule::NoConflict, self)
    }

    /// Refuses a tree with a room that has an illegal name.
    pub fn check_self_and_sub_rooms_for_illegal_room_names(&self) -> (result: Result<
        (),
        DcCmdError,
    >)
        ensures
            outcome(result) == verdict(first_error(RoomRule::LegalName, preorder(self@))),
    {
        check_tree(RoomRule::LegalName, self)
    }

    /// Refuses a tree, of an import whose templates are rendered, with a room that
    /// nobody can administrate.
    pub fn check_all_rooms_have_admin(&self) -> (result: Result<(), DcCmdError>)
        ensures
            outcome(result) == verdict(first_error(RoomRule::HasAdminOrInherits, preorder(self@))),
    {
        check_tree(RoomRule::HasAdminOrInherits, self)
    }

    /// Refuses a tree, of an import whose templates are rendered, with conflicting
    /// permissions.
    pub fn check_conflicting_permissions(&self) -> (result: Result<(), DcCmdError>)
        ensures
            outcome(result) == verdict(first_error(RoomRule::NoConflict, preorder(self@))),
    {
        check_tree(RoomRule::NoConflict, self)
    }

    /// Refuses a tree, of an import whose templates are rendered, with a reserved
    /// character in a name or a name of a wrong shape.
    pub fn check_illegal_characters_in_room_name(&self) -> (result: Result<(), DcCmdError>)
        ensures
            outcome(result) == verdict(first_error(RoomRule::UnreservedName, preorder(self@))),
    {
        check_tree(RoomRule::UnreservedName, self)
    }
}

// ---------------------------------------------------------------- laws

/// What a check returns is its error, if there is one.
pub proof fn law_verdict(error: ErrorView)
    ensures
        verdict(Some(error)) == Err::<(), ErrorView>(error),
        verdict(None) == Ok::<(), ErrorView>(()),
        error_if(true, error) == Err::<(), ErrorView>(error),
        error_if(false, error) == Ok::<(), ErrorView>(()),
{
}

/// A room is refused for want of an admin exactly if it names no admin and no
/// admin group, lets no user and no group manage it, and does not inherit
/// permissions. The message names the room.
pub proof fn law_admin_is_needed(room: RoomView)
    ensures
        rule_error(RoomRule::HasAdmin, room) == (if nobody_administrates(room) {
            Some(
                ErrorView::ImportedRoomHasNoAdmin(
                    "Room '"@ + room.name + "' does not have an admin."@,
                ),
            )
        } else {
            None
        }),
        rule_error(RoomRule::HasAdminOrInherits, room) == (if nobody_administrates(room) {
            Some(
                ErrorView::ImportedRoomHasNoAdmin(
                    "Room '"@ + room.name
                        + "' does not have an admin and inheritance is disabled."@,
                ),
            )
        } else {
            None
        }),
{
}

/// Whether a room names no admin and no admin group, lets no user and no group
/// manage it, and does not inherit permissions.
pub open spec fn nobody_administrates(room: RoomView) -> bool {
    &&& room.admin_ids is None || room.admin_ids->0.len() == 0
    &&& room.admin_group_ids is None || room.admin_group_ids->0.len() == 0
    &&& room.user_permissions matches Some(users) ==> forall|i: int|
        0 <= i < users.len() ==> !(#[trigger] users[i]).permissions.manage
    &&& room.group_permissions matches Some(groups) ==> forall|i: int|
        0 <= i < groups.len() ==> !(#[trigger] groups[i]).permissions.manage
    &&& room.inherit_permissions is None || !room.inherit_permissions->0
}

/// Any of these is enough for a room to have an admin, whatever else it says: an
/// admin, an admin group, a user or a group with the right to manage it, or
/// inherited permissions.
pub proof fn law_one_admin_is_enough(room: RoomView, i: int)
    ensures
        room.admin_ids is Some && 0 <= i < room.admin_ids->0.len() ==> rule_error(
            RoomRule::HasAdmin,
            room,
        ) is None,
        room.admin_group_ids is Some && 0 <= i < room.admin_group_ids->0.len() ==> rule_error(
            RoomRule::HasAdmin,
            room,
        ) is None,
        room.user_permissions is Some && 0 <= i < room.user_permissions->0.len()
            && room.user_permissions->0[i].permissions.manage ==> rule_error(
            RoomRule::HasAdmin,
            room,
        ) is None,
        room.group_permissions is Some && 0 <= i < room.group_permissions->0.len()
            && room.group_permissions->0[i].permissions.manage ==> rule_error(
            RoomRule::HasAdmin,
            room,
        ) is None,
        room.inherit_permissions == Some(true) ==> rule_error(RoomRule::HasAdmin, room) is None,
        rule_error(RoomRule::HasAdmin, room) is None <==> rule_error(
            RoomRule::HasAdminOrInherits,
            room,
        ) is None,
{
}

/// A room is refused for conflicting permissions exactly if one of its admins
/// has an entry among the users without the right to manage the room.
pub proof fn law_conflict_is_refused(room: RoomView)
    ensures
        rule_error(RoomRule::NoConflict, room) is Some <==> (exists|a: int, u: int|
            is_conflict_at(room, a, u)),
{
    if let (Some(admins), Some(users)) = (room.admin_ids, room.user_permissions) {
        if has_conflict(room) {
            let u = choose|u: int| 0 <= u < users.len() && conflicts(admins, #[trigger] users[u]);
            let a = choose|a: int| 0 <= a < admins.len() && admins[a] == users[u].id;
            assert(is_conflict_at(room, a, u));
        }
        if exists|a: int, u: int| is_conflict_at(room, a, u) {
            let (a, u) = choose|a: int, u: int| is_conflict_at(room, a, u);
            assert(admins.contains(users[u].id));
            assert(conflicts(admins, users[u]));
        }
    }
}

/// Whether an admin of a room is a user of it without the right to manage it.
pub open spec fn is_conflict_at(room: RoomView, a: int, u: int) -> bool {
    &&& room.admin_ids is Some
    &&& room.user_permissions is Some
    &&& 0 <= a < room.admin_ids->0.len()
    &&& 0 <= u < room.user_permissions->0.len()
    &&& room.admin_ids->0[a] == room.user_permissions->0[u].id
    &&& !room.user_permissions->0[u].permissions.manage
}

/// Only the right to manage counts for a conflict: two rooms with the same name
/// and admins, whose users differ in other permissions only, get the same
/// verdict.
pub proof fn law_only_manage_counts(a: RoomView, b: RoomView)
    requires
        a.name == b.name,
        a.admin_ids == b.admin_ids,
        a.user_permissions is Some <==> b.user_permissions is Some,
        a.user_permissions is Some ==> a.user_permissions->0.len() == b.user_permissions->0.len()
            && forall|i: int|
            0 <= i < a.user_permissions->0.len() ==> (#[trigger] a.user_permissions->0[i]).id
                == b.user_permissions->0[i].id && a.user_permissions->0[i].permissions.manage
                == b.user_permissions->0[i].permissions.manage,
    ensures
        rule_error(RoomRule::NoConflict, a) == rule_error(RoomRule::NoConflict, b),
{
    law_conflict_is_refused(a);
    law_conflict_is_refused(b);
    assert forall|x: int, y: int| is_conflict_at(a, x, y) == is_conflict_at(b, x, y) by {
        if a.user_permissions is Some && 0 <= y < a.user_permissions->0.len() {
            assert(a.user_permissions->0[y].id == b.user_permissions->0[y].id);
        }
    }
    if has_conflict(a) {
        let (x, y) = choose|x: int, y: int| is_conflict_at(a, x, y);
        assert(is_conflict_at(b, x, y));
        lemma_same_conflicting_user(
            a.admin_ids->0,
            a.user_permissions->0,
            b.user_permissions->0,
        );
    } else if has_conflict(b) {
        let (x, y) = choose|x: int, y: int| is_conflict_at(b, x, y);
        assert(is_conflict_at(a, x, y));
    }
}

proof fn lemma_same_conflicting_user(
    admins: Seq<u64>,
    a: Seq<UserRoomPermission>,
    b: Seq<UserRoomPermission>,
)
    requires
        a.len() == b.len(),
        forall|i: int|
            0 <= i < a.len() ==> (#[trigger] a[i]).id == b[i].id && a[i].permissions.manage
                == b[i].permissions.manage,
    ensures
        first_conflicting_user(admins, a) == first_conflicting_user(admins, b),
    decreases a.len(),
{
    if a.len() > 0 {
        let x = a.subrange(1, a.len() as int);
        let y = b.subrange(1, b.len() as int);
        assert(a[0].id == b[0].id);
        assert forall|i: int| 0 <= i < x.len() implies (#[trigger] x[i]).id == y[i].id
            && x[i].permissions.manage == y[i].permissions.manage by {
            assert(x[i] == a[i + 1] && y[i] == b[i + 1]);
        }
        lemma_same_conflicting_user(admins, x, y);
    }
}

/// The message on a conflict names the room and the first user who is an admin
/// without the right to manage it.
pub proof fn law_conflict_names_the_user(room: RoomView, u: int)
    requires
        room.admin_ids is Some,
        room.user_permissions is Some,
        0 <= u < room.user_permissions->0.len(),
        room.admin_ids->0.contains(room.user_permissions->0[u].id),
        !room.user_permissions->0[u].permissions.manage,
        forall|v: int|
            0 <= v < u ==> (#[trigger] room.user_permissions->0[v]).permissions.manage
                || !room.admin_ids->0.contains(room.user_permissions->0[v].id),
    ensures
        rule_error(RoomRule::NoConflict, room) == Some(
            ErrorView::ConflictingRoomPermissions(
                "Room '"@ + room.name + "' has conflicting permissions. User with ID '"@
                    + decimal_text(room.user_permissions->0[u].id as nat)
                    + "' is an admin and has conflicting user permissions. Remove the user permission"@,
            ),
        ),
{
    assert(conflicts(room.admin_ids->0, room.user_permissions->0[u]));
    lemma_first_conflicting_user(room.admin_ids->0, room.user_permissions->0, u);
}

proof fn lemma_first_conflicting_user(admins: Seq<u64>, users: Seq<UserRoomPermission>, u: int)
    requires
        0 <= u < users.len(),
        admins.contains(users[u].id),
        !users[u].permissions.manage,
        forall|v: int|
            0 <= v < u ==> (#[trigger] users[v]).permissions.manage || !admins.contains(
                users[v].id,
            ),
    ensures
        first_conflicting_user(admins, users) == users[u].id,
    decreases users.len(),
{
    if u > 0 {
        let rest = users.subrange(1, users.len() as int);
        assert(users[0].permissions.manage || !admins.contains(users[0].id));
        assert forall|v: int| 0 <= v < u - 1 implies (#[trigger] rest[v]).permissions.manage
            || !admins.contains(rest[v].id) by {
            assert(rest[v] == users[v + 1]);
        }
        lemma_first_conflicting_user(admins, rest, u - 1);
    }
}

/// Whether a name holds a slash, a backslash or another character that file
/// systems reserve.
pub open spec fn has_reserved(name: Seq<char>) -> bool {
    ||| name.contains('/') || name.contains('\\') || name.contains(':')
    ||| name.contains('*') || name.contains('?') || name.contains('|')
    ||| name.contains('"') || name.contains('<') || name.contains('>')
}

proof fn lemma_held(name: Seq<char>)
    ensures
        holds(name, |c: char| is_illegal_character(c)) <==> has_reserved(name) || name.contains('%')
            || name.contains('.'),
        holds(name, |c: char| is_reserved_character(c)) <==> has_reserved(name),
{
    let illegal = |c: char| is_illegal_character(c);
    let reserved = |c: char| is_reserved_character(c);
    if holds(name, illegal) {
        let i = choose|i: int| 0 <= i < name.len() && illegal(#[trigger] name[i]);
        assert(name.contains(name[i]));
    }
    if holds(name, reserved) {
        let i = choose|i: int| 0 <= i < name.len() && reserved(#[trigger] name[i]);
        assert(name.contains(name[i]));
    }
    if has_reserved(name) || name.contains('%') || name.contains('.') {
        assert(holds(name, illegal)) by {
            lemma_holds_one(name, illegal, '/');
            lemma_holds_one(name, illegal, '\\');
            lemma_holds_one(name, illegal, ':');
            lemma_holds_one(name, illegal, '*');
            lemma_holds_one(name, illegal, '?');
            lemma_holds_one(name, illegal, '|');
            lemma_holds_one(name, illegal, '"');
            lemma_holds_one(name, illegal, '<');
            lemma_holds_one(name, illegal, '>');
            lemma_holds_one(name, illegal, '%');
            lemma_holds_one(name, illegal, '.');
        }
    }
    if has_reserved(name) {
        assert(holds(name, reserved)) by {
            lemma_holds_one(name, reserved, '/');
            lemma_holds_one(name, reserved, '\\');
            lemma_holds_one(name, reserved, ':');
            lemma_holds_one(name, reserved, '*');
            lemma_holds_one(name, reserved, '?');
            lemma_holds_one(name, reserved, '|');
            lemma_holds_one(name, reserved, '"');
            lemma_holds_one(name, reserved, '<');
            lemma_holds_one(name, reserved, '>');
        }
    }
}

proof fn lemma_holds_one(name: Seq<char>, kind: spec_fn(char) -> bool, c: char)
    ensures
        name.contains(c) && kind(c) ==> holds(name, kind),
{
    if name.contains(c) {
        let i = choose|i: int| 0 <= i < name.len() && name[i] == c;
        assert(name[i] == c);
    }
}

/// A name is refused exactly if it holds a reserved character or, where templates
/// are filled, a percent sign or a period, if it takes more than 255 bytes, starts
/// with a hyphen or ends with a period. The message names the room and the first
/// of these reasons.
pub proof fn law_names_are_checked(room: RoomView)
    ensures
        rule_error(RoomRule::LegalName, room) == (if has_reserved(room.name) || room.name.contains(
            '%',
        ) || room.name.contains('.') {
            Some(
                ErrorView::IllegalRoomName(
                    "Room '"@ + room.name + "' name contains illegal character."@,
                ),
            )
        } else {
            shape_error(room.name)
        }),
        rule_error(RoomRule::UnreservedName, room) == (if has_reserved(room.name) {
            Some(
                ErrorView::IllegalRoomName(
                    "Room '"@ + room.name + "' contains illegal character."@,
                ),
            )
        } else {
            shape_error(room.name)
        }),
{
    lemma_held(room.name);
}

/// The error of a name that is too long, or that starts or ends in a wrong way.
pub open spec fn shape_error(name: Seq<char>) -> Option<ErrorView> {
    if encode_utf8(name).len() > 255 {
        Some(ErrorView::IllegalRoomName("Room '"@ + name + "' name is too long."@))
    } else if name.len() > 0 && name[0] == '-' {
        Some(ErrorView::IllegalRoomName("Room '"@ + name + "' name begins with a hyphen."@))
    } else if name.len() > 0 && name[name.len() - 1] == '.' {
        Some(ErrorView::IllegalRoomName("Room '"@ + name + "' name ends with a period."@))
    } else {
        None
    }
}

/// A name that is accepted where templates are filled is accepted where they are
/// rendered, too.
pub proof fn law_filled_names_are_stricter(room: RoomView)
    ensures
        rule_error(RoomRule::LegalName, room) is None ==> rule_error(
            RoomRule::UnreservedName,
            room,
        ) is None,
{
    lemma_held(room.name);
}

/// The error of a list of rooms is that of its first room with an error.
pub proof fn law_first_error_is_first(rule: RoomRule, rooms: Seq<RoomView>, i: int)
    requires
        0 <= i < rooms.len(),
        rule_error(rule, rooms[i]) is Some,
        forall|j: int| 0 <= j < i ==> rule_error(rule, #[trigger] rooms[j]) is None,
    ensures
        first_error(rule, rooms) == rule_error(rule, rooms[i]),
    decreases rooms.len(),
{
    let front = rooms.drop_last();
    assert forall|j: int| 0 <= j < i implies rule_error(rule, #[trigger] front[j]) is None by {
        assert(front[j] == rooms[j]);
    }
    if i < front.len() {
        assert(front[i] == rooms[i]);
        law_first_error_is_first(rule, front, i);
    } else {
        law_no_error_means_every_room(rule, front);
    }
}

}
