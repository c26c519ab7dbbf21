//! Collecting rooms and putting them into a tree.
use std::collections::{HashMap, VecDeque};

use dccmd_rs::nodes::export::hierarchy::{
    build_hierarchy_of_list, build_room_hierarchy, insert_room,
};
use dccmd_rs::nodes::export::models::{
    rooms_to_visit, ListedRoom, NodeId, RoomNode, RoomsChannel,
};
use dccmd_rs::nodes::export::permissions::{
    update_rooms_map_with_group_perms, update_rooms_map_with_user_perms, update_rooms_with_perms,
    CurrentPolicies, RoomGroup,
};
use dccmd_rs::nodes::export::sorting::sort_by_path;
use dccmd_rs::nodes::import::tasks::CAPACITY;
use dccmd_rs::nodes::models::{GroupMemberAcceptance, NodePermissions, Room, RoomImport};
use dccmd_rs::nodes::target::RoomUser;
use dccmd_rs::paths::{path_not_after, path_parts, text_not_after};

fn permissions(manage: bool) -> NodePermissions {
    NodePermissions {
        manage,
        read: true,
        create: false,
        change: false,
        delete: false,
        manage_download_share: false,
        manage_upload_share: false,
        read_recycle_bin: false,
        restore_recycle_bin: false,
        delete_recycle_bin: false,
    }
}

fn node(id: u64, parent_path: Option<&str>, name: &str) -> RoomNode {
    RoomNode {
        id: NodeId(id),
        name: name.to_string(),
        parent_path: parent_path.map(str::to_string),
        recycle_bin_retention_period: Some(14),
        quota: Some(100),
        inherit_permissions: Some(true),
        classification: Some(3),
    }
}

fn room(parent_path: &str, name: &str) -> Room {
    Room::from_node(node(0, Some(parent_path), name))
}

fn names(rooms: &[Room]) -> Vec<&str> {
    rooms.iter().map(|room| room.name.as_str()).collect()
}

fn below(room: &Room) -> &[Room] {
    room.sub_rooms.as_ref().map_or(&[], |rooms| rooms.as_slice())
}

// ---------------------------------------------------------------- collecting

#[test]
fn rooms_come_from_nodes() {
    let exported = Room::from_node(node(1, Some("/a/"), "b"));
    assert_eq!(exported.name, "b");
    assert_eq!(exported.complete_path.as_deref(), Some("/a/b"));
    assert_eq!(exported.recycle_bin_retention_period, Some(14));
    assert_eq!(exported.quota, Some(100));
    assert_eq!(exported.inherit_permissions, Some(true));
    assert_eq!(exported.classification, Some(3));
    assert!(exported.admin_ids.is_none() && exported.sub_rooms.is_none());
    assert_eq!(Room::from_node(node(1, None, "b")).complete_path.as_deref(), Some("b"));
}

#[test]
fn rooms_are_collected_by_id() {
    let mut channel = RoomsChannel::new();
    assert!(channel.get_rooms_map().is_empty());
    assert!(channel.collect(node(1, Some("/"), "a"), 10));
    assert!(channel.collect(node(2, Some("/"), "b"), CAPACITY - 1));
    assert!(!channel.collect(node(1, Some("/"), "c"), CAPACITY));
    assert_eq!(channel.get_rooms_map().len(), 2);
    assert_eq!(channel.get_rooms_map().get(&1).unwrap().name, "c");
}

#[test]
fn a_queue_of_rooms_is_collected_in_order() {
    let mut channel = RoomsChannel::new();
    let mut queue = VecDeque::new();
    queue.push_back(node(1, Some("/"), "a"));
    queue.push_back(node(2, Some("/"), "b"));
    queue.push_back(node(1, Some("/"), "c"));
    channel.collect_rooms(&mut queue);
    assert!(queue.is_empty());
    // Nothing is left to be collected.
    channel.collect_rooms(&mut queue);
    assert_eq!(channel.get_rooms_map().len(), 2);
    assert_eq!(channel.get_rooms_map()[&1].name, "c");
    queue.push_back(node(3, Some("/"), "d"));
    queue.push_back(node(2, Some("/"), "e"));
    channel.collect_rooms(&mut queue);
    assert!(queue.is_empty());
    let rooms = channel.get_rooms_map();
    assert_eq!(rooms.len(), 3);
    assert_eq!(rooms[&1].complete_path.as_deref(), Some("/c"));
    assert_eq!(rooms[&2].name, "e");
    assert_eq!(rooms[&3].name, "d");
}

/// The ids of the rooms that a walk visits below a room, depth first.
fn walk(
    listing: &HashMap<u64, Vec<(u64, &str)>>,
    room: u64,
    left_out: Option<String>,
) -> Vec<u64> {
    let none = vec![];
    let rooms: Vec<ListedRoom> = listing
        .get(&room)
        .unwrap_or(&none)
        .iter()
        .map(|(id, name)| ListedRoom {
            id: NodeId(*id),
            name: name.to_string(),
            parent_path: None,
        })
        .collect();
    let mut ids = vec![];
    for visit in rooms_to_visit(&rooms, &left_out) {
        ids.push(visit.id.0);
        ids.extend(walk(listing, visit.id.0, visit.left_out_below()));
    }
    ids
}

#[test]
fn a_walk_visits_all_rooms_but_those_left_out() {
    let mut listing = HashMap::new();
    listing.insert(0, vec![(1, "a"), (2, "home"), (3, "b")]);
    listing.insert(1, vec![(4, "home"), (5, "c")]);
    listing.insert(2, vec![(6, "x"), (7, "y")]);
    listing.insert(4, vec![(8, "d"), (9, "")]);
    listing.insert(9, vec![(10, "e")]);
    // A room with the name is left out at the first level, with all below it.
    assert_eq!(walk(&listing, 0, Some("home".to_string())), vec![1, 4, 8, 5, 3]);
    assert_eq!(walk(&listing, 0, None), vec![1, 4, 8, 5, 2, 6, 7, 3]);
}

#[test]
fn home_rooms_are_left_out() {
    let listed = |id, parent_path: Option<&str>, name: &str| ListedRoom {
        id: NodeId(id),
        name: name.to_string(),
        parent_path: parent_path.map(str::to_string),
    };
    let rooms = vec![
        listed(1, Some("/"), "a"),
        listed(2, Some("/"), "home"),
        listed(3, None, "b"),
        listed(4, Some("/"), ""),
    ];
    let visits: Vec<(u64, String)> = rooms_to_visit(&rooms, &Some("home".to_string()))
        .into_iter()
        .map(|visit| (visit.id.0, visit.path))
        .collect();
    assert_eq!(
        visits,
        vec![(1, "/a".to_string()), (3, "b".to_string()), (4, "/".to_string())]
    );
    let ids: Vec<u64> =
        rooms_to_visit(&rooms, &None).into_iter().map(|visit| visit.id.0).collect();
    assert_eq!(ids, vec![1, 2, 3]);
    for visit in rooms_to_visit(&rooms, &Some("home".to_string())) {
        assert_eq!(visit.left_out_below(), None);
    }
}

// ---------------------------------------------------------------- permissions

fn two_rooms() -> HashMap<u64, Room> {
    let mut rooms = HashMap::new();
    rooms.insert(1, room("/", "a"));
    rooms.insert(2, room("/", "b"));
    rooms
}

#[test]
fn users_are_split_by_the_right_to_manage() {
    let mut users = HashMap::new();
    users.insert(
        1,
        vec![
            RoomUser { id: 5, permissions: Some(permissions(true)) },
            RoomUser { id: 6, permissions: Some(permissions(false)) },
            RoomUser { id: 7, permissions: Some(permissions(true)) },
        ],
    );
    let updated = update_rooms_map_with_user_perms(&two_rooms(), &users, 99);
    let known = updated.get(&1).unwrap();
    assert_eq!(known.admin_ids, Some(vec![5, 7]));
    let listed = known.user_permissions.as_ref().unwrap();
    assert_eq!(listed.len(), 1);
    assert_eq!(listed[0].id, 6);
    assert_eq!(listed[0].permissions, permissions(false));
    assert!(known.check_own_permissions().is_ok());
    // Where the users could not be had, the current user is the admin.
    let unknown = updated.get(&2).unwrap();
    assert_eq!(unknown.admin_ids, Some(vec![99]));
    assert!(unknown.user_permissions.is_none());
    assert!(unknown.has_admin().is_ok());
}

#[test]
fn rooms_without_users_have_empty_admins() {
    let mut users = HashMap::new();
    users.insert(1, vec![]);
    let updated = update_rooms_map_with_user_perms(&two_rooms(), &users, 99);
    assert_eq!(updated.get(&1).unwrap().admin_ids, Some(vec![]));
    assert!(updated.get(&1).unwrap().user_permissions.is_none());
}

#[test]
fn groups_are_split_by_the_right_to_manage() {
    let mut groups = HashMap::new();
    groups.insert(
        1,
        vec![
            RoomGroup {
                id: 5,
                new_group_member_acceptance: None,
                permissions: Some(permissions(true)),
            },
            RoomGroup {
                id: 6,
                new_group_member_acceptance: Some(GroupMemberAcceptance::Pending),
                permissions: Some(permissions(false)),
            },
        ],
    );
    let updated = update_rooms_map_with_group_perms(&two_rooms(), &groups);
    let known = updated.get(&1).unwrap();
    assert_eq!(known.admin_group_ids, Some(vec![5]));
    let listed = known.group_permissions.as_ref().unwrap();
    assert_eq!(listed.len(), 1);
    assert_eq!(listed[0].id, 6);
    assert_eq!(listed[0].new_group_member_acceptance, Some(GroupMemberAcceptance::Pending));
    let unknown = updated.get(&2).unwrap();
    assert!(unknown.admin_group_ids.is_none() && unknown.group_permissions.is_none());
}

#[test]
fn policies_are_set_where_they_are_known() {
    let mut policies = HashMap::new();
    policies.insert(
        2,
        CurrentPolicies { default_expiration_period: 30, is_virus_protection_enabled: true },
    );
    let updated = update_rooms_with_perms(&two_rooms(), &policies);
    assert_eq!(updated.len(), 2);
    assert!(updated.get(&1).unwrap().policies.is_none());
    let known = updated.get(&2).unwrap().policies.unwrap();
    assert_eq!(known.default_expiration_period, Some(30));
    assert_eq!(known.is_virus_protection_enabled, Some(true));
}

// ---------------------------------------------------------------- the tree

#[test]
fn a_complete_export_becomes_a_tree() {
    let mut rooms = HashMap::new();
    for (id, (parent_path, name)) in
        [("/a/b/", "c"), ("/", "d"), ("/a/", "b"), ("/", "a"), ("/a/", "x y"), ("/d/", "a")]
            .into_iter()
            .enumerate()
    {
        rooms.insert(id as u64, room(parent_path, name));
    }
    let hierarchy = build_room_hierarchy(&rooms);
    assert!(hierarchy.errors.is_empty());
    assert_eq!(names(&hierarchy.rooms), vec!["a", "d"]);
    let a = &hierarchy.rooms[0];
    assert_eq!(names(below(a)), vec!["b", "x y"]);
    assert_eq!(names(below(&below(a)[0])), vec!["c"]);
    assert_eq!(names(below(&hierarchy.rooms[1])), vec!["a"]);
    assert!(below(a)[1].sub_rooms.is_none());
}

#[test]
fn rooms_without_a_parent_are_left_out() {
    let mut unplaced = Room::default();
    unplaced.name = "nowhere".to_string();
    let mut at_root = Room::default();
    at_root.complete_path = Some("//".to_string());
    let hierarchy =
        build_hierarchy_of_list(&vec![room("/a/x/", "b"), room("/", "a"), unplaced, at_root]);
    assert_eq!(names(&hierarchy.rooms), vec!["a"]);
    // The room that was reached on the way has a list of sub rooms now.
    assert_eq!(hierarchy.rooms[0].sub_rooms.as_ref().map(Vec::len), Some(0));
    assert_eq!(hierarchy.errors, vec!["Path cannot be empty", "Parent room not found: {}"]);
}

#[test]
fn rooms_stand_in_the_order_of_their_paths() {
    let paths =
        [("/", "b"), ("/a/", "z"), ("/a b/", "x"), ("/", "a"), ("/a/", "m"), ("/", "a b")];
    // The order in which the rooms are listed does not matter.
    for turn in 0..paths.len() {
        let mut rooms: Vec<Room> = paths.iter().map(|(path, name)| room(path, name)).collect();
        rooms.rotate_left(turn);
        let hierarchy = build_hierarchy_of_list(&rooms);
        assert!(hierarchy.errors.is_empty());
        assert_eq!(names(&hierarchy.rooms), vec!["a", "a b", "b"]);
        assert_eq!(names(below(&hierarchy.rooms[0])), vec!["m", "z"]);
        assert_eq!(names(below(&hierarchy.rooms[1])), vec!["x"]);
    }
}

#[test]
fn rooms_that_cannot_be_reached_are_left_out() {
    let rooms = vec![
        room("/a/b/", "c"),
        room("/a/x/", "y"),
        room("/", "a"),
        room("/a/x/y/", "z"),
        room("/q/", "r"),
        room("/a/", "b"),
    ];
    let hierarchy = build_hierarchy_of_list(&rooms);
    assert_eq!(names(&hierarchy.rooms), vec!["a"]);
    assert_eq!(names(below(&hierarchy.rooms[0])), vec!["b"]);
    assert_eq!(names(below(&below(&hierarchy.rooms[0])[0])), vec!["c"]);
    assert_eq!(hierarchy.errors.len(), 3);
    // Nothing is placed where the rooms above all rooms are missing.
    let hierarchy = build_hierarchy_of_list(&vec![room("/a/", "b"), room("/a/b/", "c")]);
    assert!(hierarchy.rooms.is_empty());
    assert_eq!(hierarchy.errors.len(), 2);
}

#[test]
fn one_map_has_one_tree() {
    let build = || {
        let mut rooms = HashMap::new();
        for id in 0..40u64 {
            rooms.insert(id, room("/", &format!("r{id:02}")));
            rooms.insert(100 + id, room(&format!("/r{id:02}/"), "s"));
            rooms.insert(200 + id, Room::default());
        }
        build_room_hierarchy(&rooms)
    };
    let (first, second) = (build(), build());
    assert_eq!(first.rooms.len(), 40);
    assert_eq!(names(&first.rooms), names(&second.rooms));
    for top in &first.rooms {
        assert_eq!(names(below(top)), vec!["s"]);
    }
    assert_eq!(first.errors, second.errors);
}

#[test]
fn rooms_are_inserted_under_their_path() {
    let path = |parts: &[&str]| parts.iter().map(|p| p.to_string()).collect::<Vec<String>>();
    let mut rooms = vec![];
    assert_eq!(insert_room(&mut rooms, &path(&["a"]), room("/", "a")), Ok(()));
    assert_eq!(insert_room(&mut rooms, &path(&["a", "b"]), room("/a/", "b")), Ok(()));
    assert_eq!(insert_room(&mut rooms, &path(&["a", "c"]), room("/a/", "c")), Ok(()));
    assert_eq!(insert_room(&mut rooms, &path(&[]), room("/", "x")), Err("Path cannot be empty"));
    assert_eq!(
        insert_room(&mut rooms, &path(&["b", "x"]), room("/b/", "x")),
        Err("Parent room not found: {}")
    );
    assert_eq!(names(&rooms), vec!["a"]);
    assert_eq!(names(below(&rooms[0])), vec!["b", "c"]);
}

#[test]
fn sorting_keeps_the_order_of_equal_paths() {
    let mut without = Room::default();
    without.name = "without".to_string();
    let mut first = room("/", "b");
    first.quota = Some(1);
    let mut second = room("/", "b");
    second.quota = Some(2);
    let sorted = sort_by_path(&vec![first, room("/a/", "z"), without, second, room("/", "a")]);
    assert_eq!(names(&sorted), vec!["without", "a", "z", "b", "b"]);
    assert_eq!(sorted[3].quota, Some(1));
    assert_eq!(sorted[4].quota, Some(2));
}

// ---------------------------------------------------------------- paths

#[test]
fn paths_have_parts() {
    assert_eq!(path_parts("/a//b c/"), vec!["a", "b c"]);
    assert_eq!(path_parts("a/b"), vec!["a", "b"]);
    assert_eq!(path_parts("//"), Vec::<String>::new());
    assert_eq!(path_parts(""), Vec::<String>::new());
}

#[test]
fn paths_are_ordered_like_strings() {
    let texts = ["", "/", "/a", "/a b", "/a/b", "/ab", "/b", "/Z", "/ä", "/€", "/\u{10000}"];
    for a in texts {
        for b in texts {
            assert_eq!(text_not_after(a, b), a <= b);
            let (x, y) = (Some(a.to_string()), Some(b.to_string()));
            assert_eq!(path_not_after(&x, &y), x <= y);
            assert!(path_not_after(&None, &y));
            assert!(!path_not_after(&x, &None));
        }
    }
}

#[test]
fn the_path_of_a_sub_room_has_one_more_part() {
    for parent in ["", "/", "/a", "a/b/", "//a//b"] {
        let mut parts = path_parts(parent);
        parts.push("c d".to_string());
        assert_eq!(path_parts(&format!("{parent}/c d")), parts);
    }
}

#[test]
fn legal_names_are_one_part_of_a_path() {
    for name in ["a", "a b", "ä-(1)_"] {
        let mut named = Room::default();
        named.name = name.to_string();
        assert!(named.check_self_and_sub_rooms_for_illegal_room_names().is_ok());
        assert_eq!(path_parts(&format!("/x/{name}")), vec!["x", name]);
    }
}

#[test]
fn every_room_is_placed_or_reported() {
    let rooms = vec![room("/b/", "c"), room("/a/", "b"), room("/", "a"), room("/a/b/", "d")];
    let hierarchy = build_hierarchy_of_list(&rooms);
    let placed = RoomImport::get_total_rooms(hierarchy.rooms) as usize;
    assert_eq!(placed, 3);
    assert_eq!(placed + hierarchy.errors.len(), rooms.len());
}
