//! What an import is checked for.
use dccmd_rs::models::DcCmdError;
use dccmd_rs::nodes::models::{
    GroupRoomPermission, NodePermissions, Room, RoomImport, RoomPolicies, UserRoomPermission,
};
use dccmd_rs::nodes::validation::{ExistenceCheck, Question, RuleSet};

fn permissions(manage: bool) -> NodePermissions {
    NodePermissions {
        manage,
        read: true,
        create: false,
        change: false,
        delete: false,
        manage_download_share: false,
        manage_upload_share: false,
        read_recycle_bin: false,
        restore_recycle_bin: false,
        delete_recycle_bin: false,
    }
}

fn user(id: u64, manage: bool) -> UserRoomPermission {
    UserRoomPermission { id, permissions: permissions(manage) }
}

fn group(id: u64, manage: bool) -> GroupRoomPermission {
    GroupRoomPermission {
        id,
        new_group_member_acceptance: None,
        permissions: permissions(manage),
    }
}

/// A room that inherits its admins.
fn room(name: &str) -> Room {
    let mut room = Room::default();
    room.name = name.to_string();
    room.inherit_permissions = Some(true);
    room
}

fn parent(name: &str, sub_rooms: Vec<Room>) -> Room {
    let mut room = room(name);
    room.sub_rooms = Some(sub_rooms);
    room
}

// ---------------------------------------------------------------- admins

#[test]
fn every_kind_of_admin_counts() {
    let mut lonely = room("r");
    lonely.inherit_permissions = Some(false);
    assert_eq!(
        lonely.has_admin(),
        Err(DcCmdError::ImportedRoomHasNoAdmin("Room 'r' does not have an admin.".to_string()))
    );
    lonely.inherit_permissions = None;
    lonely.admin_ids = Some(vec![]);
    lonely.user_permissions = Some(vec![user(1, false)]);
    lonely.group_permissions = Some(vec![group(1, false)]);
    assert!(lonely.has_admin().is_err());
    let mut by_id = lonely.clone();
    by_id.admin_ids = Some(vec![1]);
    assert!(by_id.has_admin().is_ok() && by_id.has_admin_ids());
    let mut by_group_id = lonely.clone();
    by_group_id.admin_group_ids = Some(vec![1]);
    assert!(by_group_id.has_admin().is_ok() && by_group_id.has_group_admin_ids());
    let mut by_user = lonely.clone();
    by_user.user_permissions = Some(vec![user(1, false), user(2, true)]);
    assert!(by_user.has_admin().is_ok() && by_user.has_user_permissions_with_manage());
    let mut by_group = lonely.clone();
    by_group.group_permissions = Some(vec![group(2, true)]);
    assert!(by_group.has_admin().is_ok() && by_group.has_group_permissions_with_manage());
    assert!(room("r").has_admin().is_ok());
}

#[test]
fn sub_rooms_need_admins_too() {
    let mut lonely = room("deep");
    lonely.inherit_permissions = None;
    let tree = parent("top", vec![room("a"), parent("b", vec![lonely])]);
    assert_eq!(
        tree.check_self_and_sub_rooms_for_admin(),
        Err(DcCmdError::ImportedRoomHasNoAdmin(
            "Room 'deep' does not have an admin.".to_string()
        ))
    );
    assert_eq!(
        tree.check_all_rooms_have_admin(),
        Err(DcCmdError::ImportedRoomHasNoAdmin(
            "Room 'deep' does not have an admin and inheritance is disabled.".to_string()
        ))
    );
    assert!(parent("top", vec![room("a")]).check_self_and_sub_rooms_for_admin().is_ok());
}

// ---------------------------------------------------------------- names

#[test]
fn illegal_characters_are_refused() {
    for c in ['/', '\\', '?', '%', '*', ':', '|', '"', '<', '>', '.'] {
        let name = format!("a{c}b");
        assert_eq!(
            room(&name).check_for_illegal_characters(),
            Err(DcCmdError::IllegalRoomName(format!(
                "Room '{name}' name contains illegal character."
            )))
        );
    }
    assert!(room("a b-ä_(1)").check_for_illegal_characters().is_ok());
    assert!(room("").check_self_and_sub_rooms_for_illegal_room_names().is_ok());
}

#[test]
fn reserved_characters_are_refused() {
    for c in ['/', '\\', '?', '*', ':', '|', '"', '<', '>'] {
        let name = format!("a{c}b");
        assert_eq!(
            room(&name).check_illegal_characters_in_room_name(),
            Err(DcCmdError::IllegalRoomName(format!("Room '{name}' contains illegal character.")))
        );
    }
    assert!(room("a.b%c").check_illegal_characters_in_room_name().is_ok());
    assert_eq!(
        room("a.").check_illegal_characters_in_room_name(),
        Err(DcCmdError::IllegalRoomName("Room 'a.' name ends with a period.".to_string()))
    );
}

#[test]
fn names_have_a_shape() {
    assert!(room(&"a".repeat(255)).check_room_name_too_long().is_ok());
    assert!(room(&"a".repeat(256)).check_room_name_too_long().is_err());
    let long = "ä".repeat(128);
    assert_eq!(
        room(&long).check_room_name_too_long(),
        Err(DcCmdError::IllegalRoomName(format!("Room '{long}' name is too long.")))
    );
    assert_eq!(
        room("-a").check_room_name_begins_with_hyphen(),
        Err(DcCmdError::IllegalRoomName("Room '-a' name begins with a hyphen.".to_string()))
    );
    assert!(room("a-").check_room_name_begins_with_hyphen().is_ok());
    assert_eq!(
        room("a.").check_room_name_ends_with_period(),
        Err(DcCmdError::IllegalRoomName("Room 'a.' name ends with a period.".to_string()))
    );
    assert!(room(".a").check_room_name_ends_with_period().is_ok());
}

#[test]
fn names_of_sub_rooms_are_checked() {
    let tree = parent("a", vec![room("b"), room("-c")]);
    assert_eq!(
        tree.check_self_and_sub_rooms_for_illegal_room_names(),
        Err(DcCmdError::IllegalRoomName("Room '-c' name begins with a hyphen.".to_string()))
    );
    assert_eq!(
        parent("a.", vec![]).check_self_and_sub_rooms_for_illegal_room_names(),
        Err(DcCmdError::IllegalRoomName("Room 'a.' name contains illegal character.".to_string()))
    );
}

// ---------------------------------------------------------------- conflicts

#[test]
fn conflicting_permissions_are_refused() {
    let mut conflicting = room("r");
    conflicting.admin_ids = Some(vec![7, 9]);
    conflicting.user_permissions = Some(vec![user(8, false), user(9, true), user(7, false)]);
    // The message names the first admin whose permissions do not agree.
    let error = Err(DcCmdError::ConflictingRoomPermissions(
        "Room 'r' has conflicting permissions. User with ID '7' is an admin and has conflicting user permissions. Remove the user permission"
            .to_string(),
    ));
    assert_eq!(conflicting.check_own_permissions(), error);
    let tree = parent("top", vec![conflicting]);
    assert_eq!(tree.check_self_and_sub_rooms_for_conflicting_permissions(), error);
    assert_eq!(tree.check_conflicting_permissions(), error);
    let mut one_of_two = room("r");
    one_of_two.admin_ids = Some(vec![1, 2]);
    one_of_two.user_permissions = Some(vec![user(1, true), user(2, false)]);
    assert_eq!(
        one_of_two.check_own_permissions(),
        Err(DcCmdError::ConflictingRoomPermissions(
            "Room 'r' has conflicting permissions. User with ID '2' is an admin and has conflicting user permissions. Remove the user permission"
                .to_string(),
        ))
    );
    let mut agreeing = room("r");
    agreeing.admin_ids = Some(vec![7]);
    agreeing.user_permissions = Some(vec![user(8, false), user(7, true)]);
    assert!(agreeing.check_own_permissions().is_ok());
    agreeing.admin_ids = None;
    assert!(agreeing.check_own_permissions().is_ok());
}

// ---------------------------------------------------------------- imports

#[test]
fn a_valid_import_is_counted() {
    let rooms = vec![parent("a", vec![room("b"), parent("c", vec![room("d")])]), room("e")];
    assert_eq!(RoomImport::get_total_rooms(rooms.clone()), 5);
    let import =
        RoomImport::analyize_and_validate_room_import_data(RuleSet::Filled, rooms).unwrap();
    assert_eq!(import.total_room_count, 5);
    assert_eq!(import.rooms[1].name, "e");
    let empty =
        RoomImport::analyize_and_validate_room_import_data(RuleSet::Rendered, vec![]).unwrap();
    assert_eq!(empty.total_room_count, 0);
}

#[test]
fn errors_of_a_tree_come_in_order() {
    let mut lonely = room("lonely");
    lonely.inherit_permissions = None;
    let rooms = vec![parent("-a", vec![lonely])];
    assert!(matches!(
        RoomImport::analyize_and_validate_room_import_data(RuleSet::Filled, rooms.clone()),
        Err(DcCmdError::ImportedRoomHasNoAdmin(_))
    ));
    let rooms = vec![room("ok"), room("x."), room("-a")];
    assert_eq!(
        RoomImport::analyize_and_validate_room_import_data(RuleSet::Rendered, rooms).unwrap_err(),
        DcCmdError::IllegalRoomName("Room 'x.' name ends with a period.".to_string())
    );
}

#[test]
fn virus_protection_is_found_at_any_depth() {
    let mut quiet = room("b");
    quiet.policies =
        Some(RoomPolicies { default_expiration_period: Some(1), is_virus_protection_enabled: None });
    assert!(!RoomImport::check_if_virus_protection_is_some(vec![parent("a", vec![quiet.clone()])]));
    quiet.policies = Some(RoomPolicies {
        default_expiration_period: None,
        is_virus_protection_enabled: Some(false),
    });
    assert!(RoomImport::check_if_virus_protection_is_some(vec![
        room("x"),
        parent("a", vec![quiet])
    ]));
}

// ---------------------------------------------------------------- ids

fn mentioning() -> Vec<Room> {
    let mut top = room("top");
    top.admin_ids = Some(vec![5, 3, 5]);
    top.user_permissions = Some(vec![user(9, false)]);
    top.admin_group_ids = Some(vec![2]);
    let mut below = room("below");
    below.admin_ids = Some(vec![1, 3]);
    below.group_permissions = Some(vec![group(8, false), group(2, true)]);
    top.sub_rooms = Some(vec![below]);
    let mut other = room("other");
    other.user_permissions = Some(vec![user(4, true), user(9, true)]);
    vec![top, other]
}

#[test]
fn ids_are_listed_once_in_order() {
    assert_eq!(RoomImport::get_all_unique_user_ids(&mentioning()), vec![1, 3, 4, 5, 9]);
    assert_eq!(RoomImport::get_all_unique_group_ids(&mentioning()), vec![2, 8]);
    assert_eq!(RoomImport::get_all_unique_user_ids(&vec![]), Vec::<u64>::new());
}

#[test]
fn all_users_and_groups_are_asked_for() {
    let mut check = ExistenceCheck::new(&mentioning());
    let mut asked = vec![];
    while let Some(question) = check.next_question() {
        asked.push(question);
        assert_eq!(check.answer(true), Ok(()));
    }
    assert_eq!(
        asked,
        vec![
            Question::User(1),
            Question::User(3),
            Question::User(4),
            Question::User(5),
            Question::User(9),
            Question::Group(2),
            Question::Group(8),
        ]
    );
}

#[test]
fn missing_users_and_groups_are_errors() {
    let mut check = ExistenceCheck::new(&mentioning());
    assert_eq!(
        check.answer(false),
        Err(DcCmdError::UserDoesNotExist("User with ID '1' does not exist.".to_string()))
    );
    let mut only_group = room("r");
    only_group.admin_group_ids = Some(vec![u64::MAX]);
    let mut check = ExistenceCheck::new(&vec![only_group]);
    assert_eq!(
        check.answer(false),
        Err(DcCmdError::GroupNotFound(
            "Group with ID '18446744073709551615' does not exist.".to_string()
        ))
    );
    assert_eq!(check.next_question(), None);
}
