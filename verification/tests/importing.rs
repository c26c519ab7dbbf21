//! Creating rooms, updating them, and taking rights back.
use std::collections::{HashMap, VecDeque};

use dccmd_rs::models::DcCmdError;
use dccmd_rs::nodes::import::adjust::{
    adjust_temp_admin_permissions, requests_for, AdjustmentRequest, AdjustmentRun, AdjustmentStep,
};
use dccmd_rs::nodes::import::models::{
    GroupMemberAcceptance, GroupRoomPermission, NewRoom, NodePermissions, Room, RoomId,
    RoomPolicies, RoomPoliciesUpdate, UpdateRoomTaskType, UpdateTask, UpdateTaskType,
    UpdateTasksChannel, UserRoomPermission,
};
use dccmd_rs::nodes::import::rooms::{
    add_current_user, follow_up, note_adjustment, prepare_room, tasks_of_room, update_room_groups,
    update_room_policies, update_room_users, CreatedRoom,
};
use dccmd_rs::nodes::import::tasks::{
    adjusted_message, capacity_beside, groups_done_message, is_drained, policies_done_message,
    users_done_message, CAPACITY,
};
use dccmd_rs::nodes::target::{
    check_room_permission, check_root_permission, needs_lookup, next_page, node_path, parent_room,
    FoundNode, NodeType, RoomUser, RoomUserPages,
};

fn permissions(manage: bool, read: bool) -> NodePermissions {
    NodePermissions {
        manage,
        read,
        create: false,
        change: false,
        delete: false,
        manage_download_share: false,
        manage_upload_share: false,
        read_recycle_bin: false,
        restore_recycle_bin: false,
        delete_recycle_bin: false,
    }
}

fn room(name: &str) -> Room {
    let mut room = Room::default();
    room.name = name.to_string();
    room
}

// ---------------------------------------------------------------- the target

#[test]
fn targets_are_rooms() {
    assert_eq!(node_path("/a/", "b"), "/a/b");
    assert!(needs_lookup("b"));
    assert!(!needs_lookup(""));
    let found = |node_type| Some(FoundNode { id: 7, node_type });
    assert_eq!(parent_room("s", found(NodeType::Room)), Ok(7));
    assert_eq!(
        parent_room("s", found(NodeType::Folder)),
        Err(DcCmdError::InvalidPath("s".to_string()))
    );
    assert_eq!(
        parent_room("s", found(NodeType::File)),
        Err(DcCmdError::InvalidPath("s".to_string()))
    );
    assert_eq!(
        parent_room("s", None),
        Err(DcCmdError::InvalidPathOrNoPermission("s".to_string()))
    );
}

#[test]
fn the_root_needs_a_room_manager() {
    let roles = vec!["CONFIG_MANAGER".to_string(), "ROOM_MANAGER".to_string()];
    assert_eq!(check_root_permission(&roles, "/"), Ok(()));
    assert_eq!(
        check_root_permission(&vec!["room_manager".to_string()], "/"),
        Err(DcCmdError::InsufficentPermissions("/".to_string()))
    );
}

#[test]
fn a_room_needs_the_right_to_manage() {
    let users = vec![
        RoomUser { id: 1, permissions: None },
        RoomUser { id: 2, permissions: Some(permissions(false, true)) },
        RoomUser { id: 2, permissions: Some(permissions(true, true)) },
        RoomUser { id: 3, permissions: Some(permissions(false, true)) },
    ];
    assert_eq!(check_room_permission(&users, 2, "/r"), Ok(()));
    let refused = Err(DcCmdError::InsufficentPermissions("/r".to_string()));
    assert_eq!(check_room_permission(&users, 3, "/r"), refused);
    assert_eq!(check_room_permission(&users, 4, "/r"), refused);
}

#[test]
fn pages_follow_each_other() {
    let pages = |total: u64| {
        let mut offsets = vec![];
        let mut offset: u64 = 0;
        while let Some(next) = next_page(offset, total) {
            offsets.push(next);
            offset = next;
        }
        offsets
    };
    assert_eq!(pages(0), Vec::<u64>::new());
    assert_eq!(pages(500), Vec::<u64>::new());
    assert_eq!(pages(501), vec![500]);
    assert_eq!(pages(1001), vec![500, 1000]);
    assert_eq!(next_page(u64::MAX - 10, u64::MAX), None);
}

#[test]
fn pages_are_put_together() {
    let users = |from: i64, to: i64| -> Vec<RoomUser> {
        (from..to).map(|id| RoomUser { id, permissions: None }).collect()
    };
    let mut pages = RoomUserPages::new(users(0, 500), 1200);
    assert_eq!(pages.next_offset(), Some(500));
    pages.add_page(users(500, 1000));
    assert_eq!(pages.next_offset(), Some(1000));
    pages.add_page(users(1000, 1200));
    assert_eq!(pages.next_offset(), None);
    assert_eq!(*pages.users(), users(0, 1200));
    assert_eq!(RoomUserPages::new(vec![], 0).next_offset(), None);
}

// ---------------------------------------------------------------- rooms

#[test]
fn the_creator_becomes_an_admin() {
    let mut plain = room("r");
    assert_eq!(add_current_user(&mut plain, 7), Some(None));
    assert_eq!(plain.admin_ids, Some(vec![7]));

    let mut with_others = room("r");
    with_others.admin_ids = Some(vec![3, 5, 3]);
    with_others.user_permissions = Some(vec![
        UserRoomPermission { id: 8, permissions: permissions(false, false) },
        UserRoomPermission { id: 7, permissions: permissions(false, true) },
        UserRoomPermission { id: 7, permissions: permissions(false, false) },
    ]);
    assert_eq!(add_current_user(&mut with_others, 7), Some(Some(permissions(false, true))));
    assert_eq!(with_others.admin_ids, Some(vec![3, 5, 7]));

    let mut already = room("r");
    already.admin_ids = Some(vec![7, 7]);
    assert_eq!(add_current_user(&mut already, 7), None);
    assert_eq!(already.admin_ids, Some(vec![7, 7]));
}

#[test]
fn new_rooms_have_defaults() {
    let new = NewRoom::from_room(&room("r"), Some(4));
    assert_eq!(new.name, "r");
    assert_eq!(new.parent_id, Some(4));
    assert_eq!(new.classification, 2);
    assert!(!new.inherit_permissions);
    assert_eq!(new.quota, 0);
    assert_eq!(new.recycle_bin_retention_period, 0);
    assert_eq!(new.new_group_member_acceptance, GroupMemberAcceptance::AutoAllow);
    assert_eq!(new.admin_ids, None);
    assert_eq!(new.admin_group_ids, None);
}

#[test]
fn new_rooms_keep_what_is_given() {
    let mut given = room("r");
    given.classification = Some(4);
    given.inherit_permissions = Some(true);
    given.quota = Some(10);
    given.recycle_bin_retention_period = Some(30);
    given.new_group_member_acceptance = Some(GroupMemberAcceptance::Pending);
    given.admin_ids = Some(vec![1]);
    given.admin_group_ids = Some(vec![2, 2]);
    let new = NewRoom::from_room(&given, Some(4));
    assert_eq!(new.classification, 4);
    assert!(new.inherit_permissions);
    assert_eq!(new.quota, 10);
    assert_eq!(new.recycle_bin_retention_period, 30);
    assert_eq!(new.new_group_member_acceptance, GroupMemberAcceptance::Pending);
    assert_eq!(new.admin_ids, Some(vec![1]));
    assert_eq!(new.admin_group_ids, Some(vec![2, 2]));
    // A room at the root has nothing to inherit.
    assert!(!NewRoom::from_room(&given, None).inherit_permissions);
}

// ---------------------------------------------------------------- updates

#[test]
fn test_update_room_policies() {
    let room_id = 1;
    let policies = RoomPolicies {
        default_expiration_period: Some(0),
        is_virus_protection_enabled: Some(true),
    };

    let mut room_update_task_channel = UpdateTasksChannel::new();
    let task = update_room_policies(RoomId(room_id), Some(policies)).unwrap();

    room_update_task_channel.collect(task, CAPACITY);

    assert_eq!(room_update_task_channel.get_policy_task_count(), 1);
}

#[test]
fn policies_have_a_default_period() {
    let policies =
        RoomPolicies { default_expiration_period: None, is_virus_protection_enabled: None };
    match update_room_policies(RoomId(3), Some(policies)).unwrap().task_type {
        UpdateTaskType::RoomPolicies(id, update) => {
            assert_eq!(id, RoomId(3));
            assert_eq!(
                update,
                RoomPoliciesUpdate {
                    default_expiration_period: 0,
                    is_virus_protection_enabled: None,
                }
            );
        }
        other => panic!("{:?}", other),
    }
    assert!(update_room_policies(RoomId(3), None).is_none());
}

#[test]
fn the_current_user_keeps_the_right_to_manage() {
    let users = Some(vec![
        UserRoomPermission { id: 7, permissions: permissions(false, true) },
        UserRoomPermission { id: 8, permissions: permissions(false, false) },
        UserRoomPermission { id: 7, permissions: permissions(false, false) },
    ]);
    let mut adjustments = HashMap::new();
    adjustments.insert(1, None);
    let task = update_room_users(RoomId(2), &users, &mut adjustments, 7).unwrap();
    match task.task_type {
        UpdateTaskType::RoomUser(id, updates) => {
            assert_eq!(id, RoomId(2));
            let updates: Vec<(u64, NodePermissions)> =
                updates.iter().map(|u| (u.id, u.permissions)).collect();
            assert_eq!(
                updates,
                vec![
                    (7, permissions(true, true)),
                    (8, permissions(false, false)),
                    (7, permissions(true, false)),
                ]
            );
        }
        other => panic!("{:?}", other),
    }
    assert_eq!(adjustments.len(), 2);
    assert_eq!(adjustments.get(&2), Some(&Some(permissions(false, false))));
    assert!(update_room_users(RoomId(2), &None, &mut adjustments, 7).is_none());
}

#[test]
fn updates_of_a_room_come_in_order() {
    let mut full = room("r");
    full.user_permissions =
        Some(vec![UserRoomPermission { id: 8, permissions: permissions(false, true) }]);
    full.group_permissions = Some(vec![GroupRoomPermission {
        id: 4,
        new_group_member_acceptance: Some(GroupMemberAcceptance::Pending),
        permissions: permissions(true, true),
    }]);
    full.policies = Some(RoomPolicies {
        default_expiration_period: Some(9),
        is_virus_protection_enabled: Some(false),
    });
    let mut adjustments = HashMap::new();
    let tasks = tasks_of_room(&full, RoomId(5), &mut adjustments, 7);
    assert!(adjustments.is_empty());
    assert_eq!(tasks.len(), 3);
    assert!(matches!(&tasks[0].task_type, UpdateTaskType::RoomGroup(RoomId(5), groups)
        if groups.len() == 1 && groups[0].id == 4));
    assert!(matches!(&tasks[1].task_type, UpdateTaskType::RoomUser(RoomId(5), users)
        if users.len() == 1 && users[0].id == 8));
    assert!(matches!(&tasks[2].task_type, UpdateTaskType::RoomPolicies(RoomId(5), update)
        if update.default_expiration_period == 9
            && update.is_virus_protection_enabled == Some(false)));
    assert!(tasks_of_room(&room("r"), RoomId(5), &mut adjustments, 7).is_empty());
    assert!(update_room_groups(RoomId(5), &None).is_none());
}

#[test]
fn updates_are_collected_by_kind() {
    let mut channel = UpdateTasksChannel::new();
    let task = |task_type| UpdateTask { task_type };
    let update =
        RoomPoliciesUpdate { default_expiration_period: 0, is_virus_protection_enabled: None };
    assert!(channel.collect(task(UpdateTaskType::RoomUser(RoomId(1), vec![])), 3));
    assert!(channel.collect(task(UpdateTaskType::RoomGroup(RoomId(2), vec![])), CAPACITY - 1));
    assert!(channel.collect(task(UpdateTaskType::RoomUser(RoomId(3), vec![])), CAPACITY - 1));
    assert!(!channel.collect(task(UpdateTaskType::RoomPolicies(RoomId(4), update)), CAPACITY));
    let users: Vec<u64> = channel.room_user_tasks.0.iter().map(|t| t.0 .0).collect();
    assert_eq!(users, vec![1, 3]);
    assert_eq!(channel.room_group_tasks.0.len(), 1);
    assert_eq!(channel.get_policy_task_count(), 1);
    assert!(is_drained(50000));
    assert!(!is_drained(49999));
}

#[test]
fn a_queue_of_updates_is_collected_in_order() {
    let mut channel = UpdateTasksChannel::new();
    let task = |task_type| UpdateTask { task_type };
    let update =
        RoomPoliciesUpdate { default_expiration_period: 5, is_virus_protection_enabled: None };
    let mut queue = VecDeque::new();
    queue.push_back(task(UpdateTaskType::RoomUser(RoomId(3), vec![])));
    queue.push_back(task(UpdateTaskType::RoomPolicies(RoomId(1), update)));
    queue.push_back(task(UpdateTaskType::RoomUser(RoomId(2), vec![])));
    channel.collect_tasks(&mut queue);
    assert!(queue.is_empty());
    // Nothing is left to be collected.
    channel.collect_tasks(&mut queue);
    queue.push_back(task(UpdateTaskType::RoomGroup(RoomId(4), vec![])));
    queue.push_back(task(UpdateTaskType::RoomUser(RoomId(1), vec![])));
    channel.collect_tasks(&mut queue);
    assert!(queue.is_empty());
    let users: Vec<u64> = channel.room_user_tasks.0.iter().map(|t| t.0 .0).collect();
    assert_eq!(users, vec![3, 2, 1]);
    let groups: Vec<u64> = channel.room_group_tasks.0.iter().map(|t| t.0 .0).collect();
    assert_eq!(groups, vec![4]);
    assert_eq!(channel.room_policies_tasks.0, vec![(RoomId(1), update)]);
}

#[test]
fn updates_of_rooms_wait_as_tasks() {
    let update =
        RoomPoliciesUpdate { default_expiration_period: 5, is_virus_protection_enabled: None };
    assert!(matches!(
        UpdateTask::of_room(UpdateRoomTaskType::Group(RoomId(1), vec![])).task_type,
        UpdateTaskType::RoomGroup(RoomId(1), groups) if groups.is_empty()
    ));
    let users = vec![UserRoomPermission { id: 7, permissions: permissions(true, true) }];
    assert!(matches!(
        UpdateTask::of_room(UpdateRoomTaskType::User(RoomId(2), users)).task_type,
        UpdateTaskType::RoomUser(RoomId(2), users) if users.len() == 1 && users[0].id == 7
    ));
    assert!(matches!(
        UpdateTask::of_room(UpdateRoomTaskType::Policies(RoomId(3), update)).task_type,
        UpdateTaskType::RoomPolicies(RoomId(3), same) if same == update
    ));
}

#[test]
fn the_room_left_depends_on_what_waits() {
    assert_eq!(capacity_beside(0), 50000);
    assert_eq!(capacity_beside(1), 49999);
    assert_eq!(capacity_beside(50000), 0);
    assert_eq!(capacity_beside(50001), 0);
}

#[test]
fn messages_count() {
    assert_eq!(groups_done_message(0), "No group permissions to update.");
    assert_eq!(groups_done_message(12), "Sucessfully updated 12 group permission(s)");
    assert_eq!(users_done_message(0), "No user permissions to update.");
    assert_eq!(users_done_message(1), "Successfully updated 1 user permission(s).");
    assert_eq!(policies_done_message(0), "No room policies to update.");
    assert_eq!(policies_done_message(1), "Sucessfully updated 1 room policy.");
    assert_eq!(policies_done_message(100), "Sucessfully updated 100 room policies.");
    assert_eq!(adjusted_message(0), "Successfully adjusted 0 permission(s)");
}

// ---------------------------------------------------------------- taking back

#[test]
fn every_adjustment_is_made() {
    let mut adjustments = HashMap::new();
    adjustments.insert(1, None);
    adjustments.insert(2, Some(permissions(false, true)));
    adjustments.insert(3, None);
    let requests = adjust_temp_admin_permissions(&adjustments, 7);
    assert_eq!(requests.updates.len(), 1);
    assert_eq!(requests.updates[0].0, RoomId(2));
    assert_eq!(requests.updates[0].1.id, 7);
    assert_eq!(requests.updates[0].1.permissions, permissions(false, true));
    let mut deletes: Vec<u64> = requests.deletes.iter().map(|id| id.0).collect();
    deletes.sort();
    assert_eq!(deletes, vec![1, 3]);
    let in_order = requests_for(&vec![3, 2, 1], &adjustments, 7);
    assert_eq!(in_order.deletes, vec![RoomId(3), RoomId(1)]);
}

#[test]
fn what_the_import_says_is_restored() {
    let mut adjustments = HashMap::new();
    // Not an admin, but a user with permissions of its own.
    let mut first = room("a");
    first.user_permissions =
        Some(vec![UserRoomPermission { id: 7, permissions: permissions(false, true) }]);
    let adjust = add_current_user(&mut first, 7);
    note_adjustment(&mut adjustments, RoomId(1), adjust);
    tasks_of_room(&first, RoomId(1), &mut adjustments, 7);
    // Named twice: the last entry counts.
    let mut twice = room("t");
    twice.user_permissions = Some(vec![
        UserRoomPermission { id: 7, permissions: permissions(false, false) },
        UserRoomPermission { id: 7, permissions: permissions(false, true) },
        UserRoomPermission { id: 8, permissions: permissions(false, false) },
    ]);
    let adjust = add_current_user(&mut twice, 7);
    note_adjustment(&mut adjustments, RoomId(4), adjust);
    tasks_of_room(&twice, RoomId(4), &mut adjustments, 7);
    assert_eq!(adjustments.get(&4), Some(&Some(permissions(false, true))));
    // Not named at all.
    let mut second = room("b");
    let adjust = add_current_user(&mut second, 7);
    note_adjustment(&mut adjustments, RoomId(2), adjust);
    tasks_of_room(&second, RoomId(2), &mut adjustments, 7);
    // An admin anyway.
    let mut third = room("c");
    third.admin_ids = Some(vec![7]);
    let adjust = add_current_user(&mut third, 7);
    note_adjustment(&mut adjustments, RoomId(3), adjust);
    tasks_of_room(&third, RoomId(3), &mut adjustments, 7);
    assert_eq!(adjustments.get(&1), Some(&Some(permissions(false, true))));
    assert_eq!(adjustments.get(&2), Some(&None));
    assert_eq!(adjustments.get(&3), None);
}

#[test]
fn only_a_few_requests_run_at_once() {
    let mut adjustments = HashMap::new();
    for room_id in 1..=5 {
        let noted = if room_id % 2 == 0 { Some(permissions(false, true)) } else { None };
        adjustments.insert(room_id, noted);
    }
    let mut run = AdjustmentRun::new(requests_for(&vec![1, 2, 3, 4, 5], &adjustments, 7));
    let mut steps = vec![];
    loop {
        match run.step() {
            AdjustmentStep::Start(AdjustmentRequest::Update(room_id, user)) => {
                assert_eq!(user.id, 7);
                steps.push(format!("update {}", room_id.0));
            }
            AdjustmentStep::Start(AdjustmentRequest::Delete(room_id)) => {
                steps.push(format!("delete {}", room_id.0));
            }
            AdjustmentStep::WaitForAll => steps.push("wait".to_string()),
            AdjustmentStep::Finished => {
                break;
            }
        }
    }
    assert_eq!(
        steps,
        vec![
            "update 2", "update 4", "wait", "delete 1", "delete 3", "wait", "delete 5", "wait",
        ]
    );
    assert!(matches!(run.step(), AdjustmentStep::Finished));
}

#[test]
fn a_created_room_is_followed_up() {
    let mut top = room("top");
    top.policies =
        Some(RoomPolicies { default_expiration_period: None, is_virus_protection_enabled: None });
    top.sub_rooms = Some(vec![room("a"), room("b")]);
    let prepared = prepare_room(top, None, 7);
    assert_eq!(prepared.request.admin_ids, Some(vec![7]));
    assert_eq!(prepared.adjust, Some(None));
    let created = CreatedRoom {
        id: RoomId(11),
        name: "top".to_string(),
        parent_path: Some("/x/".to_string()),
    };
    let mut adjustments = HashMap::new();
    let next = follow_up(prepared.room, prepared.adjust, &created, &mut adjustments, 7);
    assert_eq!(next.tasks.len(), 1);
    let below = next.sub_rooms.unwrap();
    assert_eq!(below.parent_id, 11);
    assert_eq!(below.path, "/x/top");
    assert_eq!(below.rooms.len(), 2);
    assert_eq!(below.rooms[1].name, "b");
    assert_eq!(adjustments.get(&11), Some(&None));
    let created = CreatedRoom { id: RoomId(12), name: "a".to_string(), parent_path: None };
    let next = follow_up(room("a"), None, &created, &mut adjustments, 7);
    assert!(next.tasks.is_empty() && next.sub_rooms.is_none());
    assert_eq!(adjustments.len(), 1);
}
