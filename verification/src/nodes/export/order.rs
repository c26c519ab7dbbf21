//! In what order rooms stand in the exported tree.
use vstd::prelude::*;
use crate::maps::lists_keys;
use crate::nodes::export::hierarchy::{
    is_hierarchy_of, is_hierarchy_of_map, messages, rest_of, rooms_by_keys, tree_errors, tree_of,
    tree_with, Hierarchy,
};
use crate::nodes::export::placing::{lemma_names, room_parts, same_but_sub_rooms};
use crate::nodes::export::sorting::{
    is_sorted, is_stable_sort, lemma_one_with_path, lemma_same_sorted, lemma_sorted_contains,
    lemma_two_with_path, lemma_with_path_contains, lemma_with_path_listed, with_path,
};
use crate::nodes::models::{names, rooms_view, sub_rooms_of, Room, RoomView};
use crate::nodes::tree::{is_met, lemma_met, lemma_met_in_all, preorder, preorder_all};
use crate::paths::path_le;
use crate::text::first_position;

verus! {

// ---------------------------------------------------------------- what is in a tree

/// Whether a room of a tree is a room of a list, but for its sub rooms, that has
/// a path with at least one part.
pub open spec fn comes_from(rooms: Seq<RoomView>, k: int, room: RoomView) -> bool {
    &&& 0 <= k < rooms.len()
    &&& same_but_sub_rooms(room, rooms[k])
    &&& room_parts(rooms[k]).len() > 0
}

proof fn lemma_met_after_update(rooms: Seq<RoomView>, i: int, top: RoomView, room: RoomView)
    requires
        0 <= i < rooms.len(),
        preorder_all(rooms.update(i, top)).contains(room),
    ensures
        preorder_all(rooms).contains(room) || preorder(top).contains(room),
{
    let after = rooms.update(i, top);
    lemma_met_in_all(after, room);
    lemma_met_in_all(rooms, room);
    let j = choose|j: int| #[trigger] is_met(after, j, room);
    if j != i {
        assert(after[j] == rooms[j]);
        assert(is_met(rooms, j, room));
    }
}

/// What is met in a tree after an insertion was there before, but for its sub
/// rooms, or is the new room.
proof fn lemma_met_after_insert(
    rooms: Seq<RoomView>,
    path: Seq<Seq<char>>,
    new: RoomView,
    room: RoomView,
) -> (was: RoomView)
    requires
        sub_rooms_of(new).len() == 0,
        preorder_all(tree_with(rooms, path, new)).contains(room),
    ensures
        same_but_sub_rooms(room, was),
        preorder_all(rooms).contains(was) || (was == new && path.len() > 0),
    decreases path.len(),
{
    let after = tree_with(rooms, path, new);
    if path.len() == 0 {
        room
    } else if path.len() == 1 {
        lemma_met_in_all(after, room);
        lemma_met_in_all(rooms, room);
        let j = choose|j: int| #[trigger] is_met(after, j, room);
        if j < rooms.len() {
            assert(after[j] == rooms[j]);
            assert(is_met(rooms, j, room));
        } else {
            lemma_met(new, room);
            assert(preorder_all(sub_rooms_of(new)).len() == 0);
        }
        room
    } else {
        lemma_names(rooms, path[0]);
        match first_position(names(rooms), path[0]) {
            Some(i) => {
                let below = sub_rooms_of(rooms[i]);
                let top = after[i];
                assert(sub_rooms_of(top) == tree_with(below, rest_of(path), new));
                lemma_met_after_update(rooms, i, top, room);
                if preorder_all(rooms).contains(room) {
                    room
                } else {
                    lemma_met(top, room);
                    if room == top {
                        lemma_met(rooms[i], rooms[i]);
                        assert(is_met(rooms, i, rooms[i]));
                        lemma_met_in_all(rooms, rooms[i]);
                        rooms[i]
                    } else {
                        let was = lemma_met_after_insert(below, rest_of(path), new, room);
                        if preorder_all(below).contains(was) {
                            lemma_met(rooms[i], was);
                            assert(is_met(rooms, i, was));
                            lemma_met_in_all(rooms, was);
                        }
                        was
                    }
                }
            },
            None => room,
        }
    }
}

/// Every room of a tree is one of the listed rooms, but for its sub rooms, and
/// has a path with at least one part: rooms without such a path occur nowhere.
pub proof fn law_tree_holds_listed_rooms(rooms: Seq<RoomView>, room: RoomView) -> (k: int)
    requires
        forall|i: int| 0 <= i < rooms.len() ==> (#[trigger] rooms[i]).sub_rooms is None,
        preorder_all(tree_of(rooms)).contains(room),
    ensures
        comes_from(rooms, k, room),
    decreases rooms.len(),
{
    let front = rooms.drop_last();
    let new = rooms[rooms.len() - 1];
    assert forall|i: int| 0 <= i < front.len() implies (#[trigger] front[i]).sub_rooms is None by {
        assert(front[i] == rooms[i]);
    }
    if new.complete_path is None {
        law_tree_holds_listed_rooms(front, room)
    } else {
        let was = lemma_met_after_insert(tree_of(front), room_parts(new), new, room);
        if preorder_all(tree_of(front)).contains(was) {
            law_tree_holds_listed_rooms(front, was)
        } else {
            rooms.len() - 1
        }
    }
}

// ---------------------------------------------------------------- the order of rooms

/// Whether rooms are in the order of their paths. In a strict order no two rooms
/// have the same path.
pub open spec fn is_in_order(rooms: Seq<RoomView>, strict: bool) -> bool {
    forall|i: int, j: int|
        0 <= i < j < rooms.len() ==> stands_before(
            #[trigger] rooms[i].complete_path,
            #[trigger] rooms[j].complete_path,
            strict,
        )
}

/// Whether a path stands before another or, where the order is not strict, is
/// the same.
pub open spec fn stands_before(
    a: Option<Seq<char>>,
    b: Option<Seq<char>>,
    strict: bool,
) -> bool {
    path_le(a, b) && (strict ==> a != b)
}

/// Whether the rooms of a tree are in the order of their paths, at the top and
/// in every room.
pub open spec fn is_ordered_tree(rooms: Seq<RoomView>, strict: bool) -> bool {
    &&& is_in_order(rooms, strict)
    &&& forall|room: RoomView| #[trigger]
        preorder_all(rooms).contains(room) ==> is_in_order(sub_rooms_of(room), strict)
}

proof fn lemma_order_below(rooms: Seq<RoomView>, i: int, strict: bool)
    requires
        is_ordered_tree(rooms, strict),
        0 <= i < rooms.len(),
    ensures
        is_ordered_tree(sub_rooms_of(rooms[i]), strict),
        forall|room: RoomView| #[trigger]
            preorder_all(sub_rooms_of(rooms[i])).contains(room) ==> preorder_all(rooms).contains(
                room,
            ),
        preorder_all(rooms).contains(rooms[i]),
{
    let below = sub_rooms_of(rooms[i]);
    lemma_met(rooms[i], rooms[i]);
    assert(is_met(rooms, i, rooms[i]));
    lemma_met_in_all(rooms, rooms[i]);
    assert forall|room: RoomView| #[trigger] preorder_all(below).contains(
        room,
    ) implies preorder_all(rooms).contains(room) by {
        lemma_met(rooms[i], room);
        assert(is_met(rooms, i, room));
        lemma_met_in_all(rooms, room);
    }
}

proof fn lemma_insert_in_order(
    rooms: Seq<RoomView>,
    path: Seq<Seq<char>>,
    new: RoomView,
    strict: bool,
)
    requires
        is_ordered_tree(rooms, strict),
        sub_rooms_of(new).len() == 0,
        forall|room: RoomView| #[trigger]
            preorder_all(rooms).contains(room) ==> stands_before(
                room.complete_path,
                new.complete_path,
                strict,
            ),
    ensures
        is_ordered_tree(tree_with(rooms, path, new), strict),
    decreases path.len(),
{
    let after = tree_with(rooms, path, new);
    if path.len() == 1 {
        assert forall|i: int, j: int| 0 <= i < j < after.len() implies stands_before(
            #[trigger] after[i].complete_path,
            #[trigger] after[j].complete_path,
            strict,
        ) by {
            assert(after[i] == rooms[i]);
            if j < rooms.len() {
                assert(after[j] == rooms[j]);
                assert(stands_before(rooms[i].complete_path, rooms[j].complete_path, strict));
            } else {
                lemma_order_below(rooms, i, strict);
            }
        }
        assert forall|room: RoomView| #[trigger] preorder_all(after).contains(
            room,
        ) implies is_in_order(sub_rooms_of(room), strict) by {
            lemma_met_in_all(after, room);
            lemma_met_in_all(rooms, room);
            let j = choose|j: int| #[trigger] is_met(after, j, room);
            if j < rooms.len() {
                assert(after[j] == rooms[j]);
                assert(is_met(rooms, j, room));
            } else {
                lemma_met(new, room);
                assert(preorder_all(sub_rooms_of(new)).len() == 0);
            }
        }
    } else if path.len() > 1 {
        lemma_names(rooms, path[0]);
        if let Some(i) = first_position(names(rooms), path[0]) {
            let below = sub_rooms_of(rooms[i]);
            let top = after[i];
            lemma_order_below(rooms, i, strict);
            lemma_insert_in_order(below, rest_of(path), new, strict);
            assert(sub_rooms_of(top) == tree_with(below, rest_of(path), new));
            assert forall|x: int, y: int| 0 <= x < y < after.len() implies stands_before(
                #[trigger] after[x].complete_path,
                #[trigger] after[y].complete_path,
                strict,
            ) by {
                assert(after[x].complete_path == rooms[x].complete_path);
                assert(after[y].complete_path == rooms[y].complete_path);
                assert(stands_before(rooms[x].complete_path, rooms[y].complete_path, strict));
            }
            assert forall|room: RoomView| #[trigger] preorder_all(after).contains(
                room,
            ) implies is_in_order(sub_rooms_of(room), strict) by {
                lemma_met_after_update(rooms, i, top, room);
                lemma_met(top, room);
            }
        }
    }
}

proof fn lemma_tree_in_order(rooms: Seq<RoomView>, strict: bool)
    requires
        is_sorted(rooms),
        strict ==> paths_differ(rooms),
        forall|i: int| 0 <= i < rooms.len() ==> (#[trigger] rooms[i]).sub_rooms is None,
    ensures
        is_ordered_tree(tree_of(rooms), strict),
    decreases rooms.len(),
{
    if rooms.len() > 0 {
        let front = rooms.drop_last();
        let n = rooms.len() - 1;
        assert forall|i: int| 0 <= i < front.len() implies (
        #[trigger] front[i]).sub_rooms is None by {
            assert(front[i] == rooms[i]);
        }
        assert forall|i: int, j: int| 0 <= i <= j < front.len() implies path_le(
            #[trigger] front[i].complete_path,
            #[trigger] front[j].complete_path,
        ) by {
            assert(front[i] == rooms[i] && front[j] == rooms[j]);
            assert(path_le(rooms[i].complete_path, rooms[j].complete_path));
        }
        if strict {
            assert forall|i: int, j: int|
                0 <= i < j < front.len() && (
                #[trigger] front[i]).complete_path is Some implies front[i].complete_path != (
            #[trigger] front[j]).complete_path by {
                assert(front[i] == rooms[i] && front[j] == rooms[j]);
            }
        }
        lemma_tree_in_order(front, strict);
        assert forall|room: RoomView| #[trigger] preorder_all(tree_of(front)).contains(
            room,
        ) implies stands_before(room.complete_path, rooms[n].complete_path, strict) by {
            let k = law_tree_holds_listed_rooms(front, room);
            assert(front[k] == rooms[k]);
            assert(path_le(rooms[k].complete_path, rooms[n].complete_path));
            assert(rooms[k].complete_path is Some);
        }
        lemma_insert_in_order(tree_of(front), room_parts(rooms[n]), rooms[n], strict);
    }
}

/// Whether no two rooms of a list have a path in common.
pub open spec fn paths_differ(rooms: Seq<RoomView>) -> bool {
    forall|i: int, j: int|
        0 <= i < j < rooms.len() && (#[trigger] rooms[i]).complete_path is Some
            ==> rooms[i].complete_path != (#[trigger] rooms[j]).complete_path
}

proof fn lemma_sorted_paths_differ(before: Seq<RoomView>, after: Seq<RoomView>)
    requires
        paths_differ(before),
        is_stable_sort(before, after),
    ensures
        paths_differ(after),
{
    assert forall|i: int, j: int|
        0 <= i < j < after.len() && (
        #[trigger] after[i]).complete_path is Some implies after[i].complete_path != (
    #[trigger] after[j]).complete_path by {
        let path = after[i].complete_path;
        if path == after[j].complete_path {
            lemma_two_with_path(after, i, j);
            lemma_one_with_path(before, path);
            assert(with_path(after, path) == with_path(before, path));
        }
    }
}

/// The rooms of an exported tree are in the order of their paths, at the top and
/// in every room, whatever order the rooms came in. The order is strict where no
/// two rooms have a path in common.
pub proof fn law_tree_is_in_order(rooms: Seq<RoomView>, sorted: Seq<RoomView>)
    requires
        forall|i: int| 0 <= i < rooms.len() ==> (#[trigger] rooms[i]).sub_rooms is None,
        is_stable_sort(rooms, sorted),
    ensures
        is_ordered_tree(tree_of(sorted), false),
        paths_differ(rooms) ==> is_ordered_tree(tree_of(sorted), true),
{
    assert forall|i: int| 0 <= i < sorted.len() implies (
    #[trigger] sorted[i]).sub_rooms is None by {
        assert(sorted.contains(sorted[i]));
        lemma_sorted_contains(rooms, sorted, sorted[i]);
        let k = choose|k: int| 0 <= k < rooms.len() && rooms[k] == sorted[i];
        assert(rooms[k].sub_rooms is None);
    }
    lemma_tree_in_order(sorted, false);
    if paths_differ(rooms) {
        lemma_sorted_paths_differ(rooms, sorted);
        lemma_tree_in_order(sorted, true);
    }
}

// ---------------------------------------------------------------- one tree

/// The rooms of a list that have a path.
pub open spec fn rooms_with_a_path(rooms: Seq<RoomView>) -> Seq<RoomView>
    decreases rooms.len(),
{
    if rooms.len() == 0 {
        Seq::empty()
    } else if rooms.last().complete_path is Some {
        rooms_with_a_path(rooms.drop_last()).push(rooms.last())
    } else {
        rooms_with_a_path(rooms.drop_last())
    }
}

proof fn lemma_rooms_with_a_path(rooms: Seq<RoomView>)
    requires
        is_sorted(rooms),
    ensures
        is_sorted(rooms_with_a_path(rooms)),
        tree_of(rooms_with_a_path(rooms)) == tree_of(rooms),
        tree_errors(rooms_with_a_path(rooms)) == tree_errors(rooms),
        forall|k: int|
            0 <= k < rooms_with_a_path(rooms).len() ==> rooms.contains(
                #[trigger] rooms_with_a_path(rooms)[k],
            ),
        forall|path: Option<Seq<char>>| #[trigger]
            with_path(rooms_with_a_path(rooms), path) == (if path is Some {
                with_path(rooms, path)
            } else {
                Seq::empty()
            }),
    decreases rooms.len(),
{
    let all = rooms_with_a_path(rooms);
    if rooms.len() > 0 {
        let front = rooms.drop_last();
        let n = rooms.len() - 1;
        let before = rooms_with_a_path(front);
        assert forall|i: int, j: int| 0 <= i <= j < front.len() implies path_le(
            #[trigger] front[i].complete_path,
            #[trigger] front[j].complete_path,
        ) by {
            assert(front[i] == rooms[i] && front[j] == rooms[j]);
            assert(path_le(rooms[i].complete_path, rooms[j].complete_path));
        }
        lemma_rooms_with_a_path(front);
        if rooms.last().complete_path is Some {
            assert(all.drop_last() =~= before);
            assert(all.last() == rooms.last());
        }
        assert forall|k: int| 0 <= k < all.len() implies rooms.contains(#[trigger] all[k]) by {
            if k < before.len() {
                assert(all[k] == before[k]);
                let i = choose|i: int| 0 <= i < front.len() && front[i] == before[k];
                assert(rooms[i] == front[i]);
            } else {
                assert(rooms[n] == all[k]);
            }
        }
        assert forall|i: int, j: int| 0 <= i <= j < all.len() implies path_le(
            #[trigger] all[i].complete_path,
            #[trigger] all[j].complete_path,
        ) by {
            if j < before.len() {
                assert(all[i] == before[i] && all[j] == before[j]);
                assert(path_le(before[i].complete_path, before[j].complete_path));
            } else {
                assert(all[j] == rooms[n]);
                assert(rooms.contains(all[i]));
                let k = choose|k: int| 0 <= k < rooms.len() && rooms[k] == all[i];
                assert(path_le(rooms[k].complete_path, rooms[n].complete_path));
            }
        }
        assert forall|path: Option<Seq<char>>| #[trigger] with_path(all, path) == (
        if path is Some {
            with_path(rooms, path)
        } else {
            Seq::empty()
        }) by {
            assert(with_path(before, path) == (if path is Some {
                with_path(front, path)
            } else {
                Seq::empty()
            }));
        }
    }
}

/// Whether no two rooms of a map have a path in common.
pub open spec fn have_own_paths(rooms: Map<u64, Room>) -> bool {
    forall|a: u64, b: u64|
        #![trigger rooms[a], rooms[b]]
        rooms.contains_key(a) && rooms.contains_key(b) && a != b && rooms[a]@.complete_path is Some
            ==> rooms[a]@.complete_path != rooms[b]@.complete_path
}

/// Where no two rooms of a map have a path in common, this holds of every list of
/// them.
pub proof fn lemma_own_paths_differ(keys: Seq<u64>, rooms: Map<u64, Room>)
    requires
        lists_keys(keys, rooms),
        have_own_paths(rooms),
    ensures
        paths_differ(rooms_by_keys(keys, rooms)),
{
    let list = rooms_by_keys(keys, rooms);
    assert forall|i: int, j: int|
        0 <= i < j < list.len() && (
        #[trigger] list[i]).complete_path is Some implies list[i].complete_path != (
    #[trigger] list[j]).complete_path by {
        assert(keys.contains(keys[i]) && keys.contains(keys[j]));
        assert(keys[i] != keys[j]);
        assert(list[i] == rooms[keys[i]]@ && list[j] == rooms[keys[j]]@);
    }
}

proof fn lemma_own_path(
    keys: Seq<u64>,
    others: Seq<u64>,
    rooms: Map<u64, Room>,
    path: Option<Seq<char>>,
)
    requires
        lists_keys(keys, rooms),
        lists_keys(others, rooms),
        have_own_paths(rooms),
        path is Some,
    ensures
        with_path(rooms_by_keys(keys, rooms), path).len() <= 1,
        with_path(rooms_by_keys(keys, rooms), path).len() == 1 ==> with_path(
            rooms_by_keys(others, rooms),
            path,
        ).contains(with_path(rooms_by_keys(keys, rooms), path)[0]),
{
    let list = rooms_by_keys(keys, rooms);
    let other = rooms_by_keys(others, rooms);
    lemma_own_paths_differ(keys, rooms);
    lemma_one_with_path(list, path);
    if with_path(list, path).len() == 1 {
        let room = with_path(list, path)[0];
        lemma_with_path_listed(list, path, 0);
        let i = choose|i: int| 0 <= i < list.len() && list[i] == room;
        assert(keys.contains(keys[i]));
        assert(others.contains(keys[i]));
        let j = choose|j: int| 0 <= j < others.len() && others[j] == keys[i];
        assert(other[j] == room);
        lemma_with_path_contains(other, room);
    }
}

proof fn lemma_same_tree(
    keys: Seq<u64>,
    others: Seq<u64>,
    rooms: Map<u64, Room>,
    a: Seq<RoomView>,
    b: Seq<RoomView>,
)
    requires
        lists_keys(keys, rooms),
        lists_keys(others, rooms),
        have_own_paths(rooms),
        is_stable_sort(rooms_by_keys(keys, rooms), a),
        is_stable_sort(rooms_by_keys(others, rooms), b),
    ensures
        tree_of(a) == tree_of(b),
        tree_errors(a) == tree_errors(b),
{
    let x = rooms_with_a_path(a);
    let y = rooms_with_a_path(b);
    let list = rooms_by_keys(keys, rooms);
    let other = rooms_by_keys(others, rooms);
    lemma_rooms_with_a_path(a);
    lemma_rooms_with_a_path(b);
    assert forall|path: Option<Seq<char>>| #[trigger] with_path(x, path) == with_path(y, path) by {
        assert(with_path(y, path) == (if path is Some {
            with_path(b, path)
        } else {
            Seq::empty()
        }));
        if path is Some {
            assert(with_path(a, path) == with_path(list, path));
            assert(with_path(b, path) == with_path(other, path));
            lemma_own_path(keys, others, rooms, path);
            lemma_own_path(others, keys, rooms, path);
            assert(with_path(list, path) =~= with_path(other, path));
        }
    }
    lemma_same_sorted(x, y);
}

/// A map of rooms has one tree only, and one list of what was left out, where
/// each room has its own path: the order in which the map is walked does not
/// matter.
pub proof fn law_one_hierarchy(a: Hierarchy, b: Hierarchy, rooms: Map<u64, Room>)
    requires
        have_own_paths(rooms),
        is_hierarchy_of_map(a, rooms),
        is_hierarchy_of_map(b, rooms),
    ensures
        rooms_view(a.rooms@) == rooms_view(b.rooms@),
        messages(a.errors@) == messages(b.errors@),
{
    let keys = choose|keys: Seq<u64>| #[trigger]
        lists_keys(keys, rooms) && is_hierarchy_of(a, rooms_by_keys(keys, rooms));
    let others = choose|keys: Seq<u64>| #[trigger]
        lists_keys(keys, rooms) && is_hierarchy_of(b, rooms_by_keys(keys, rooms));
    let x = choose|sorted: Seq<RoomView>| #[trigger]
        is_stable_sort(rooms_by_keys(keys, rooms), sorted) && rooms_view(a.rooms@) == tree_of(
            sorted,
        ) && messages(a.errors@) == tree_errors(sorted);
    let y = choose|sorted: Seq<RoomView>| #[trigger]
        is_stable_sort(rooms_by_keys(others, rooms), sorted) && rooms_view(b.rooms@) == tree_of(
            sorted,
        ) && messages(b.errors@) == tree_errors(sorted);
    lemma_same_tree(keys, others, rooms, x, y);
}

// ---------------------------------------------------------------- exported maps

/// Whether no room of a map has sub rooms yet.
pub open spec fn have_no_sub_rooms(rooms: Map<u64, Room>) -> bool {
    forall|id: u64| rooms.contains_key(id) ==> (#[trigger] rooms[id])@.sub_rooms is None
}

/// The tree of a map of rooms is in the order of their paths, at the top and in
/// every room. The order is strict where no two rooms have a path in common.
pub proof fn law_hierarchy_is_in_order(hierarchy: Hierarchy, rooms: Map<u64, Room>)
    requires
        have_no_sub_rooms(rooms),
        is_hierarchy_of_map(hierarchy, rooms),
    ensures
        is_ordered_tree(rooms_view(hierarchy.rooms@), false),
        have_own_paths(rooms) ==> is_ordered_tree(rooms_view(hierarchy.rooms@), true),
{
    let (keys, sorted) = lemma_sorted_map(hierarchy, rooms);
    law_tree_is_in_order(rooms_by_keys(keys, rooms), sorted);
    if have_own_paths(rooms) {
        lemma_own_paths_differ(keys, rooms);
    }
}

/// Every room in the tree of a map of rooms is a room of the map, but for its sub
/// rooms, and has a path with at least one part: a room without a path, or whose
/// path has no part, occurs nowhere.
pub proof fn law_hierarchy_holds_rooms_of_map(
    hierarchy: Hierarchy,
    rooms: Map<u64, Room>,
    room: RoomView,
) -> (id: u64)
    requires
        have_no_sub_rooms(rooms),
        is_hierarchy_of_map(hierarchy, rooms),
        preorder_all(rooms_view(hierarchy.rooms@)).contains(room),
    ensures
        rooms.contains_key(id),
        same_but_sub_rooms(room, rooms[id]@),
        room_parts(room).len() > 0,
{
    let (keys, sorted) = lemma_sorted_map(hierarchy, rooms);
    let list = rooms_by_keys(keys, rooms);
    assert forall|i: int| 0 <= i < sorted.len() implies (
    #[trigger] sorted[i]).sub_rooms is None by {
        assert(sorted.contains(sorted[i]));
        lemma_sorted_contains(list, sorted, sorted[i]);
        let k = choose|k: int| 0 <= k < list.len() && list[k] == sorted[i];
        assert(list[k].sub_rooms is None);
    }
    let k = law_tree_holds_listed_rooms(sorted, room);
    assert(sorted.contains(sorted[k]));
    lemma_sorted_contains(list, sorted, sorted[k]);
    let i = choose|i: int| 0 <= i < list.len() && list[i] == sorted[k];
    assert(keys.contains(keys[i]));
    keys[i]
}

proof fn lemma_sorted_map(hierarchy: Hierarchy, rooms: Map<u64, Room>) -> (found: (
    Seq<u64>,
    Seq<RoomView>,
))
    requires
        have_no_sub_rooms(rooms),
        is_hierarchy_of_map(hierarchy, rooms),
    ensures
        lists_keys(found.0, rooms),
        is_stable_sort(rooms_by_keys(found.0, rooms), found.1),
        rooms_view(hierarchy.rooms@) == tree_of(found.1),
        forall|i: int|
            0 <= i < found.0.len() ==> (#[trigger] rooms_by_keys(
                found.0,
                rooms,
            )[i]).sub_rooms is None,
{
    let keys = choose|keys: Seq<u64>| #[trigger]
        lists_keys(keys, rooms) && is_hierarchy_of(hierarchy, rooms_by_keys(keys, rooms));
    let list = rooms_by_keys(keys, rooms);
    let sorted = choose|sorted: Seq<RoomView>| #[trigger]
        is_stable_sort(list, sorted) && rooms_view(hierarchy.rooms@) == tree_of(sorted) && messages(
            hierarchy.errors@,
        ) == tree_errors(sorted);
    assert forall|i: int| 0 <= i < keys.len() implies (#[trigger] list[i]).sub_rooms is None by {
        assert(keys.contains(keys[i]));
        assert(list[i] == rooms[keys[i]]@);
    }
    (keys, sorted)
}

}
