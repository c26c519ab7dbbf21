//! The tree of the exported rooms.
use std::collections::HashMap;
use vstd::prelude::*;
use crate::maps::{keys_of, lists_keys};
use crate::nodes::export::sorting::{is_stable_sort, law_one_stable_sort, sort_by_path};
use crate::nodes::models::{
    lemma_sub_rooms_view, names, position_by_name, rooms_view, sub_rooms_of, Room, RoomView,
};
use crate::paths::{parts_of, path_parts};
use crate::text::{first_position, lemma_first_position, lemma_first_position_is, texts};

verus! {

// ---------------------------------------------------------------- inserting

/// The parts of a path behind the first.
pub open spec fn rest_of(path: Seq<Seq<char>>) -> Seq<Seq<char>> {
    path.subrange(1, path.len() as int)
}

/// A tree with a room inserted under a path, the last part of which is the
/// place of the room itself. Where a room on the way is missing, nothing is
/// inserted; every room on the way to it then has a list of sub rooms.
pub open spec fn tree_with(
    rooms: Seq<RoomView>,
    path: Seq<Seq<char>>,
    room: RoomView,
) -> Seq<RoomView>
    decreases path.len(),
{
    if path.len() == 0 {
        rooms
    } else if path.len() == 1 {
        rooms.push(room)
    } else {
        match first_position(names(rooms), path[0]) {
            Some(i) => rooms.update(
                i,
                RoomView {
                    sub_rooms: Some(tree_with(sub_rooms_of(rooms[i]), rest_of(path), room)),
                    ..rooms[i]
                },
            ),
            None => rooms,
        }
    }
}

/// Why a room cannot be inserted under a path.
pub open spec fn insert_error(rooms: Seq<RoomView>, path: Seq<Seq<char>>) -> Option<Seq<char>>
    decreases path.len(),
{
    if path.len() == 0 {
        Some("Path cannot be empty"@)
    } else if path.len() == 1 {
        None
    } else {
        match first_position(names(rooms), path[0]) {
            Some(i) => insert_error(sub_rooms_of(rooms[i]), rest_of(path)),
            None => Some("Parent room not found: {}"@),
        }
    }
}

/// The message of an outcome, if it is an error.
pub open spec fn error_message(result: Result<(), &'static str>) -> Option<Seq<char>> {
    match result {
        Ok(_) => None,
        Err(message) => Some(message@),
    }
}

/// Inserts a room below another one.
fn insert_below(parent: &mut Room, path: &Vec<String>, from: usize, room: Room) -> (result: Result<
    (),
    &'static str,
>)
    requires
        from <= path.len(),
    ensures
        final(parent)@ == (RoomView {
            sub_rooms: Some(
                tree_with(
                    sub_rooms_of(old(parent)@),
                    texts(path@).subrange(from as int, path@.len() as int),
                    room@,
                ),
            ),
            ..old(parent)@
        }),
        error_message(result) == insert_error(
            sub_rooms_of(old(parent)@),
            texts(path@).subrange(from as int, path@.len() as int),
        ),
    decreases path.len() - from, 1int,
{
    broadcast use lemma_sub_rooms_view;

    let ghost before = parent@;
    let mut sub_rooms = match parent.sub_rooms.take() {
        Some(rooms) => rooms,
        None => Vec::new(),
    };
    assert(rooms_view(sub_rooms@) =~= sub_rooms_of(before));
    let result = insert_from(&mut sub_rooms, path, from, room);
    parent.sub_rooms = Some(sub_rooms);
    assert(parent@.sub_rooms == Some(rooms_view(sub_rooms@)));
    result
}

/// Inserts a room under the parts of a path from a position on.
fn insert_from(rooms: &mut Vec<Room>, path: &Vec<String>, from: usize, room: Room) -> (result:
    Result<(), &'static str>)
    requires
        from <= path.len(),
    ensures
        rooms_view(final(rooms)@) == tree_with(
            rooms_view(old(rooms)@),
            texts(path@).subrange(from as int, path@.len() as int),
            room@,
        ),
        error_message(result) == insert_error(
            rooms_view(old(rooms)@),
            texts(path@).subrange(from as int, path@.len() as int),
        ),
    decreases path.len() - from, 0int,
{
    let ghost before = rooms_view(rooms@);
    let ghost parts = texts(path@).subrange(from as int, path@.len() as int);
    assert(parts.len() == path@.len() - from);
    if from == path.len() {
        return Err("Path cannot be empty");
    }
    if from == path.len() - 1 {
        rooms.push(room);
        assert(rooms_view(rooms@) =~= before.push(room@));
        return Ok(());
    }
    assert(parts[0] == path@[from as int]@);
    assert(rest_of(parts) =~= texts(path@).subrange(from + 1, path@.len() as int));
    match position_by_name(rooms, path[from].as_str()) {
        Some(i) => {
            assert(before[i as int] == rooms@[i as int]@);
            let result = insert_below(&mut rooms[i], path, from + 1, room);
            assert(rooms_view(rooms@) =~= tree_with(before, parts, room@));
            result
        },
        None => Err("Parent room not found: {}"),
    }
}

/// Inserts a room into a tree under a path.
pub fn insert_room(rooms: &mut Vec<Room>, path: &Vec<String>, room: Room) -> (result: Result<
    (),
    &'static str,
>)
    ensures
        rooms_view(final(rooms)@) == tree_with(rooms_view(old(rooms)@), texts(path@), room@),
        error_message(result) == insert_error(rooms_view(old(rooms)@), texts(path@)),
{
    assert(texts(path@).subrange(0, path@.len() as int) =~= texts(path@));
    insert_from(rooms, path, 0, room)
}

// ---------------------------------------------------------------- building

/// The tree of rooms that are inserted under their paths, one after the other.
/// Rooms without a path and rooms that cannot be inserted are left out.
pub open spec fn tree_of(rooms: Seq<RoomView>) -> Seq<RoomView>
    decreases rooms.len(),
{
    if rooms.len() == 0 {
        Seq::empty()
    } else {
        match rooms.last().complete_path {
            Some(path) => tree_with(tree_of(rooms.drop_last()), parts_of(path), rooms.last()),
            None => tree_of(rooms.drop_last()),
        }
    }
}

/// Why rooms were left out of the tree of these rooms.
pub open spec fn tree_errors(rooms: Seq<RoomView>) -> Seq<Seq<char>>
    decreases rooms.len(),
{
    if rooms.len() == 0 {
        Seq::empty()
    } else {
        let before = tree_errors(rooms.drop_last());
        match rooms.last().complete_path {
            Some(path) => match insert_error(tree_of(rooms.drop_last()), parts_of(path)) {
                Some(error) => before.push(error),
                None => before,
            },
            None => before,
        }
    }
}

/// A tree of rooms, and why rooms were left out of it.
#[derive(Debug)]
pub struct Hierarchy {
    pub rooms: Vec<Room>,
    pub errors: Vec<&'static str>,
}

/// The messages in a list.
pub open spec fn messages(list: Seq<&'static str>) -> Seq<Seq<char>> {
    list.map_values(|message: &'static str| message@)
}

/// Whether a hierarchy is the tree of these rooms, in the order of their paths.
pub open spec fn is_hierarchy_of(hierarchy: Hierarchy, rooms: Seq<RoomView>) -> bool {
    exists|sorted: Seq<RoomView>| #[trigger]
        is_stable_sort(rooms, sorted) && rooms_view(hierarchy.rooms@) == tree_of(sorted)
            && messages(hierarchy.errors@) == tree_errors(sorted)
}

/// The tree of the rooms of a list.
pub fn build_hierarchy_of_list(rooms: &Vec<Room>) -> (hierarchy: Hierarchy)
    ensures
        is_hierarchy_of(hierarchy, rooms_view(rooms@)),
{
    let sorted = sort_by_path(rooms);
    let ghost all = rooms_view(sorted@);
    let mut tree: Vec<Room> = Vec::new();
    let mut errors: Vec<&'static str> = Vec::new();
    let mut i: usize = 0;
    assert(rooms_view(tree@) =~= tree_of(all.take(0)));
    assert(messages(errors@) =~= tree_errors(all.take(0)));
    while i < sorted.len()
        invariant
            i <= sorted.len(),
            all == rooms_view(sorted@),
            rooms_view(tree@) == tree_of(all.take(i as int)),
            messages(errors@) == tree_errors(all.take(i as int)),
        decreases sorted.len() - i,
    {
        assert(all[i as int] == sorted@[i as int]@);
        assert(all.take(i + 1).drop_last() =~= all.take(i as int));
        if let Some(path) = &sorted[i].complete_path {
            let parts = path_parts(path.as_str());
            let ghost before = errors@;
            if let Err(message) = insert_room(&mut tree, &parts, sorted[i].clone()) {
                errors.push(message);
                assert(messages(errors@) =~= messages(before).push(message@));
            }
        }
        i += 1;
    }
    assert(all.take(i as int) =~= all);
    assert(is_stable_sort(rooms_view(rooms@), all));
    Hierarchy { rooms: tree, errors }
}

/// The rooms of a map by the order of a list of its keys.
pub open spec fn rooms_by_keys(keys: Seq<u64>, rooms: Map<u64, Room>) -> Seq<RoomView> {
    keys.map_values(|key: u64| rooms[key]@)
}

/// Whether a hierarchy is the tree of the rooms of a map, walked in some order.
pub open spec fn is_hierarchy_of_map(hierarchy: Hierarchy, rooms: Map<u64, Room>) -> bool {
    exists|keys: Seq<u64>| #[trigger]
        lists_keys(keys, rooms) && is_hierarchy_of(hierarchy, rooms_by_keys(keys, rooms))
}

/// The tree of the rooms of a map.
pub fn build_room_hierarchy(rooms: &HashMap<u64, Room>) -> (hierarchy: Hierarchy)
    ensures
        is_hierarchy_of_map(hierarchy, rooms@),
{
    let keys = keys_of(rooms);
    let mut list: Vec<Room> = Vec::new();
    let ghost all = rooms_by_keys(keys@, rooms@);
    let mut i: usize = 0;
    while i < keys.len()
        invariant
            i <= keys.len(),
            lists_keys(keys@, rooms@),
            all == rooms_by_keys(keys@, rooms@),
            rooms_view(list@) == all.take(i as int),
        decreases keys.len() - i,
    {
        broadcast use vstd::std_specs::hash::group_hash_axioms;

        let ghost before = list@;
        assert(keys@.contains(keys@[i as int]));
        assert(rooms@.contains_key(keys@[i as int]));
        if let Some(room) = rooms.get(&keys[i]) {
            list.push(room.clone());
            assert(rooms_view(list@) =~= rooms_view(before).push(all[i as int]));
        }
        assert(all.take(i + 1) =~= all.take(i as int).push(all[i as int]));
        i += 1;
    }
    assert(all.take(i as int) =~= all);
    build_hierarchy_of_list(&list)
}

// ---------------------------------------------------------------- laws

/// A room whose path has one part is put behind all rooms at the top. With a
/// longer path it goes into the first room with the name that the path begins
/// with, under the rest of the path, and no other room changes. Without such a
/// room, or without a part, nothing changes.
pub proof fn law_where_a_room_goes(
    rooms: Seq<RoomView>,
    name: Seq<char>,
    rest: Seq<Seq<char>>,
    room: RoomView,
    i: int,
)
    ensures
        tree_with(rooms, Seq::empty(), room) == rooms,
        tree_with(rooms, seq![name], room) == rooms.push(room),
        rest.len() > 0 && is_first_named(rooms, name, i) ==> tree_with(
            rooms,
            seq![name] + rest,
            room,
        ) == rooms.update(
            i,
            RoomView {
                sub_rooms: Some(
                    tree_with(
                        if rooms[i].sub_rooms is Some {
                            rooms[i].sub_rooms->0
                        } else {
                            Seq::empty()
                        },
                        rest,
                        room,
                    ),
                ),
                ..rooms[i]
            },
        ),
        rest.len() > 0 && (forall|j: int|
            0 <= j < rooms.len() ==> (#[trigger] rooms[j]).name != name) ==> tree_with(
            rooms,
            seq![name] + rest,
            room,
        ) == rooms,
{
    lemma_first_named(rooms, name, i);
    assert(rest_of(seq![name] + rest) =~= rest);
    assert((seq![name] + rest)[0] == name);
}

/// A room cannot be inserted without a part of a path, nor where the first room
/// on the way is missing. Otherwise it is refused for what is wrong below that
/// room; with one part it is never refused.
pub proof fn law_why_a_room_is_refused(
    rooms: Seq<RoomView>,
    name: Seq<char>,
    rest: Seq<Seq<char>>,
    i: int,
)
    ensures
        insert_error(rooms, Seq::empty()) == Some("Path cannot be empty"@),
        insert_error(rooms, seq![name]) is None,
        rest.len() > 0 && is_first_named(rooms, name, i) ==> insert_error(rooms, seq![name] + rest)
            == insert_error(
            if rooms[i].sub_rooms is Some {
                rooms[i].sub_rooms->0
            } else {
                Seq::empty()
            },
            rest,
        ),
        rest.len() > 0 && (forall|j: int|
            0 <= j < rooms.len() ==> (#[trigger] rooms[j]).name != name) ==> insert_error(
            rooms,
            seq![name] + rest,
        ) == Some("Parent room not found: {}"@),
{
    lemma_first_named(rooms, name, i);
    assert(rest_of(seq![name] + rest) =~= rest);
    assert((seq![name] + rest)[0] == name);
}

/// Whether a room is the first one in a list with a name.
pub open spec fn is_first_named(rooms: Seq<RoomView>, name: Seq<char>, i: int) -> bool {
    &&& 0 <= i < rooms.len()
    &&& rooms[i].name == name
    &&& forall|j: int| 0 <= j < i ==> (#[trigger] rooms[j]).name != name
}

proof fn lemma_first_named(rooms: Seq<RoomView>, name: Seq<char>, i: int)
    ensures
        is_first_named(rooms, name, i) ==> first_position(names(rooms), name) == Some(i),
        (forall|j: int| 0 <= j < rooms.len() ==> (#[trigger] rooms[j]).name != name)
            ==> first_position(names(rooms), name) is None,
{
    lemma_first_position(names(rooms), name);
    assert forall|j: int| 0 <= j < rooms.len() implies names(rooms)[j] == (
    #[trigger] rooms[j]).name by {}
    if is_first_named(rooms, name, i) {
        lemma_first_position_is(names(rooms), name, i);
    }
}

/// One more room goes into the tree under the parts of its path, or adds the
/// reason why it cannot. A room without a path changes nothing.
pub proof fn law_one_more_room(rooms: Seq<RoomView>, room: RoomView)
    ensures
        tree_of(Seq::empty()).len() == 0,
        tree_errors(Seq::empty()).len() == 0,
        room.complete_path is None ==> tree_of(rooms.push(room)) == tree_of(rooms) && tree_errors(
            rooms.push(room),
        ) == tree_errors(rooms),
        room.complete_path is Some ==> {
            let parts = parts_of(room.complete_path->0);
            &&& tree_of(rooms.push(room)) == tree_with(tree_of(rooms), parts, room)
            &&& insert_error(tree_of(rooms), parts) is None ==> tree_errors(rooms.push(room))
                == tree_errors(rooms)
            &&& insert_error(tree_of(rooms), parts) is Some ==> tree_errors(rooms.push(room))
                == tree_errors(rooms).push(insert_error(tree_of(rooms), parts)->0)
        },
{
    assert(rooms.push(room).drop_last() =~= rooms);
}

/// The message of an outcome is that of its error; without an error there is none.
pub proof fn law_error_message_shows_all(result: Result<(), &'static str>)
    ensures
        result is Ok <==> error_message(result) is None,
        result matches Err(message) ==> error_message(result) == Some(message@),
{
}

/// Messages are seen one by one, in their order.
pub proof fn law_messages_keep_order(list: Seq<&'static str>, i: int)
    requires
        0 <= i < list.len(),
    ensures
        messages(list).len() == list.len(),
        messages(list)[i] == list[i]@,
{
}

/// A hierarchy of rooms is the tree of the sorted rooms, and its errors are those
/// of that tree.
pub proof fn law_hierarchy_is_the_sorted_tree(
    hierarchy: Hierarchy,
    rooms: Seq<RoomView>,
    sorted: Seq<RoomView>,
)
    requires
        is_hierarchy_of(hierarchy, rooms),
        is_stable_sort(rooms, sorted),
    ensures
        rooms_view(hierarchy.rooms@) == tree_of(sorted),
        messages(hierarchy.errors@) == tree_errors(sorted),
{
    let other = choose|other: Seq<RoomView>| #[trigger]
        is_stable_sort(rooms, other) && rooms_view(hierarchy.rooms@) == tree_of(other) && messages(
            hierarchy.errors@,
        ) == tree_errors(other);
    law_one_stable_sort(rooms, sorted, other);
}

/// The rooms of a list of keys are those under the keys, one by one.
pub proof fn law_rooms_by_keys(keys: Seq<u64>, rooms: Map<u64, Room>, i: int)
    requires
        0 <= i < keys.len(),
    ensures
        rooms_by_keys(keys, rooms).len() == keys.len(),
        rooms_by_keys(keys, rooms)[i] == rooms[keys[i]]@,
{
}

/// The hierarchy of a map of rooms is that of all its rooms, each taken once, in
/// some order.
pub proof fn law_hierarchy_takes_every_room(
    hierarchy: Hierarchy,
    rooms: Map<u64, Room>,
) -> (keys: Seq<u64>)
    requires
        is_hierarchy_of_map(hierarchy, rooms),
    ensures
        forall|i: int, j: int| 0 <= i < j < keys.len() ==> keys[i] != keys[j],
        forall|key: u64|
            rooms.contains_key(key) <==> exists|i: int|
                0 <= i < keys.len() && #[trigger] keys[i] == key,
        is_hierarchy_of(hierarchy, keys.map_values(|key: u64| rooms[key]@)),
{
    let keys = choose|keys: Seq<u64>| #[trigger]
        lists_keys(keys, rooms) && is_hierarchy_of(hierarchy, rooms_by_keys(keys, rooms));
    assert forall|key: u64| rooms.contains_key(key) <==> exists|i: int|
        0 <= i < keys.len() && #[trigger] keys[i] == key by {
        assert(keys.contains(key) <==> rooms.contains_key(key));
    }
    keys
}

}
