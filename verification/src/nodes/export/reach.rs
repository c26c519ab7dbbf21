//! Which rooms of an export are in the tree, where rooms are missing.
use vstd::prelude::*;
use crate::maps::lists_keys;
use crate::nodes::export::hierarchy::{
    insert_error, is_hierarchy_of, is_hierarchy_of_map, messages, rooms_by_keys, tree_errors,
    tree_of, tree_with, Hierarchy,
};
use crate::nodes::export::order::{have_own_paths, lemma_own_paths_differ};
use crate::nodes::export::placing::{
    is_in_place, joined, law_failed_insert, law_insert_needs_parent, law_insert_then_look,
    lemma_none_in_empty, room_at, room_parts, stands_among,
};
use crate::nodes::export::sorting::{
    is_sorted, is_stable_sort, lemma_one_with_path, lemma_sorted_contains, lemma_two_with_path,
    with_path,
};
use crate::nodes::models::{rooms_view, Room, RoomView};
use crate::paths::{law_prefix_first, path_le};

verus! {

/// Whether a room has no sub rooms yet and, where its path has parts, the path
/// is written with one slash before each part and ends with the room's name.
pub open spec fn is_regular(room: RoomView) -> bool {
    &&& room.sub_rooms is None
    &&& room_parts(room).len() > 0 ==> room.complete_path == Some(joined(room_parts(room)))
        && room_parts(room).last() == room.name
}

/// Whether the rooms of an export are regular, and no two that have a path with
/// parts have the same.
pub open spec fn is_export(rooms: Seq<RoomView>) -> bool {
    &&& forall|i: int| 0 <= i < rooms.len() ==> is_regular(#[trigger] rooms[i])
    &&& forall|i: int, j: int|
        0 <= i < j < rooms.len() && room_parts(#[trigger] rooms[i]).len() > 0
            ==> rooms[i].complete_path != (#[trigger] rooms[j]).complete_path
}

/// Whether a room of a list stands where the first `k` parts of a path lead to.
pub open spec fn stands_on_the_way(rooms: Seq<RoomView>, path: Seq<Seq<char>>, k: int) -> bool {
    stands_among(rooms, rooms.len() as int, path.take(k))
}

/// Whether the rooms on the way to a path are all in a list, and the room at its
/// end is.
pub open spec fn is_reachable(rooms: Seq<RoomView>, path: Seq<Seq<char>>) -> bool {
    &&& path.len() > 0
    &&& forall|k: int| 1 <= k <= path.len() ==> #[trigger] stands_on_the_way(rooms, path, k)
}

/// Whether a tree holds exactly the rooms of a list that can be reached, each at
/// its path.
pub open spec fn holds_reachable(tree: Seq<RoomView>, rooms: Seq<RoomView>) -> bool {
    &&& forall|i: int|
        0 <= i < rooms.len() && is_reachable(rooms, room_parts(#[trigger] rooms[i]))
            ==> is_in_place(tree, rooms[i])
    &&& forall|path: Seq<Seq<char>>| #[trigger]
        room_at(tree, path) is Some <==> is_reachable(rooms, path)
}

proof fn lemma_front_reachable(rooms: Seq<RoomView>, path: Seq<Seq<char>>)
    requires
        rooms.len() > 0,
    ensures
        is_reachable(rooms.drop_last(), path) ==> is_reachable(rooms, path),
        is_reachable(rooms, path) && (forall|k: int|
            1 <= k <= path.len() ==> #[trigger] path.take(k) != room_parts(rooms.last()))
            ==> is_reachable(rooms.drop_last(), path),
{
    let front = rooms.drop_last();
    let last = room_parts(rooms.last());
    if is_reachable(front, path) {
        assert forall|k: int| 1 <= k <= path.len() implies #[trigger] stands_on_the_way(
            rooms,
            path,
            k,
        ) by {
            assert(stands_on_the_way(front, path, k));
            let j = choose|j: int|
                0 <= j < front.len() && room_parts(#[trigger] front[j]) == path.take(k);
            assert(rooms[j] == front[j]);
        }
    }
    if is_reachable(rooms, path) && (forall|k: int|
        1 <= k <= path.len() ==> #[trigger] path.take(k) != last) {
        assert forall|k: int| 1 <= k <= path.len() implies #[trigger] stands_on_the_way(
            front,
            path,
            k,
        ) by {
            assert(stands_on_the_way(rooms, path, k));
            assert(path.take(k) != last);
            let j = choose|j: int|
                0 <= j < rooms.len() && room_parts(#[trigger] rooms[j]) == path.take(k);
            assert(front[j] == rooms[j]);
        }
    }
}

proof fn lemma_prefix_reachable(rooms: Seq<RoomView>, path: Seq<Seq<char>>, n: int)
    requires
        is_reachable(rooms, path),
        1 <= n <= path.len(),
    ensures
        is_reachable(rooms, path.take(n)),
{
    let part = path.take(n);
    assert forall|k: int| 1 <= k <= part.len() implies #[trigger] stands_on_the_way(
        rooms,
        part,
        k,
    ) by {
        assert(stands_on_the_way(rooms, path, k));
        assert(part.take(k) =~= path.take(k));
    }
}

/// No room of a sorted export stands below its last room.
proof fn lemma_none_below_last(rooms: Seq<RoomView>, path: Seq<Seq<char>>, n: int)
    requires
        rooms.len() > 0,
        is_sorted(rooms),
        is_export(rooms),
        1 <= n < path.len(),
        path.take(n) == room_parts(rooms.last()),
    ensures
        !is_reachable(rooms, path),
{
    let last = rooms.len() - 1;
    if is_reachable(rooms, path) {
        let longer = path.take(n + 1);
        assert(stands_on_the_way(rooms, path, n + 1));
        let j = choose|j: int| 0 <= j < rooms.len() && room_parts(#[trigger] rooms[j]) == longer;
        assert(is_regular(rooms[j]) && is_regular(rooms[last]));
        assert(longer.drop_last() =~= path.take(n));
        let start = joined(path.take(n));
        let more = seq!['/'] + longer.last();
        assert(joined(longer) =~= start + more);
        law_prefix_first(start, more);
        assert(path_le(rooms[j].complete_path, rooms[last].complete_path));
    }
}

proof fn lemma_front_of_export(rooms: Seq<RoomView>)
    requires
        rooms.len() > 0,
        is_sorted(rooms),
        is_export(rooms),
    ensures
        is_sorted(rooms.drop_last()),
        is_export(rooms.drop_last()),
{
    let front = rooms.drop_last();
    assert forall|i: int| 0 <= i < front.len() implies is_regular(#[trigger] front[i]) by {
        assert(front[i] == rooms[i]);
    }
    assert forall|i: int, j: int|
        0 <= i < j < front.len() && room_parts(#[trigger] front[i]).len()
            > 0 implies front[i].complete_path != (#[trigger] front[j]).complete_path by {
        assert(front[i] == rooms[i] && front[j] == rooms[j]);
    }
    assert forall|i: int, j: int| 0 <= i <= j < front.len() implies path_le(
        #[trigger] front[i].complete_path,
        #[trigger] front[j].complete_path,
    ) by {
        assert(front[i] == rooms[i] && front[j] == rooms[j]);
        assert(path_le(rooms[i].complete_path, rooms[j].complete_path));
    }
}

/// One more room that cannot be reached changes nothing in what can be reached.
proof fn lemma_unreachable_last(rooms: Seq<RoomView>, path: Seq<Seq<char>>)
    requires
        rooms.len() > 0,
        !is_reachable(rooms, room_parts(rooms.last())),
    ensures
        is_reachable(rooms, path) == is_reachable(rooms.drop_last(), path),
{
    let last = room_parts(rooms.last());
    lemma_front_reachable(rooms, path);
    if is_reachable(rooms, path) {
        assert forall|k: int| 1 <= k <= path.len() implies #[trigger] path.take(k) != last by {
            lemma_prefix_reachable(rooms, path, k);
        }
    }
}

/// One more room that can be reached adds only its own path to what can be
/// reached.
proof fn lemma_reachable_last(rooms: Seq<RoomView>, path: Seq<Seq<char>>)
    requires
        rooms.len() > 0,
        is_sorted(rooms),
        is_export(rooms),
        path != room_parts(rooms.last()),
    ensures
        is_reachable(rooms, path) == is_reachable(rooms.drop_last(), path),
{
    let last = room_parts(rooms.last());
    lemma_front_reachable(rooms, path);
    if is_reachable(rooms, path) {
        assert forall|k: int| 1 <= k <= path.len() implies #[trigger] path.take(k) != last by {
            if path.take(k) == last {
                if k < path.len() {
                    lemma_none_below_last(rooms, path, k);
                } else {
                    assert(path.take(k) =~= path);
                }
            }
        }
    }
}

/// Whether the last room of a sorted export can be reached is known from the
/// rooms before it.
proof fn lemma_last_reachable(rooms: Seq<RoomView>)
    requires
        rooms.len() > 0,
        room_parts(rooms.last()).len() > 0,
    ensures
        is_reachable(rooms, room_parts(rooms.last())) <==> room_parts(rooms.last()).len() == 1
            || is_reachable(rooms.drop_last(), room_parts(rooms.last()).drop_last()),
{
    let n = rooms.len() - 1;
    let front = rooms.drop_last();
    let path = room_parts(rooms.last());
    let parent = path.drop_last();
    assert(rooms[n] == rooms.last());
    if path.len() == 1 || is_reachable(front, parent) {
        assert forall|k: int| 1 <= k <= path.len() implies #[trigger] stands_on_the_way(
            rooms,
            path,
            k,
        ) by {
            if k == path.len() {
                assert(path.take(k) =~= path);
                assert(room_parts(rooms[n]) == path);
            } else {
                assert(stands_on_the_way(front, parent, k));
                assert(parent.take(k) =~= path.take(k));
                let j = choose|j: int|
                    0 <= j < front.len() && room_parts(#[trigger] front[j]) == path.take(k);
                assert(rooms[j] == front[j]);
            }
        }
    }
    if is_reachable(rooms, path) && path.len() > 1 {
        lemma_prefix_reachable(rooms, path, path.len() - 1);
        assert(path.take(path.len() - 1) =~= parent);
        lemma_front_reachable(rooms, parent);
        assert forall|k: int| 1 <= k <= parent.len() implies #[trigger] parent.take(k) != path by {
            assert(parent.take(k).len() == k);
        }
    }
}

proof fn lemma_tree_holds_reachable(rooms: Seq<RoomView>)
    requires
        is_sorted(rooms),
        is_export(rooms),
    ensures
        holds_reachable(tree_of(rooms), rooms),
    decreases rooms.len(),
{
    let after = tree_of(rooms);
    if rooms.len() == 0 {
        assert forall|path: Seq<Seq<char>>| #[trigger]
            room_at(after, path) is Some <==> is_reachable(rooms, path) by {
            lemma_none_in_empty(after, path);
            if is_reachable(rooms, path) {
                assert(stands_on_the_way(rooms, path, 1));
            }
        }
    } else {
        let n = rooms.len() - 1;
        let front = rooms.drop_last();
        let room = rooms[n];
        let path = room_parts(room);
        let before = tree_of(front);
        lemma_front_of_export(rooms);
        lemma_tree_holds_reachable(front);
        assert(is_regular(rooms[n]));
        if path.len() == 0 {
            assert(after == before);
            assert forall|p: Seq<Seq<char>>| #[trigger]
                room_at(after, p) is Some <==> is_reachable(rooms, p) by {
                lemma_unreachable_last(rooms, p);
            }
            assert forall|i: int|
                0 <= i < rooms.len() && is_reachable(
                    rooms,
                    room_parts(#[trigger] rooms[i]),
                ) implies is_in_place(after, rooms[i]) by {
                lemma_unreachable_last(rooms, room_parts(rooms[i]));
                assert(front[i] == rooms[i]);
                assert(is_in_place(before, front[i]));
            }
        } else {
            lemma_insert_last(rooms);
        }
    }
}

proof fn lemma_insert_last(rooms: Seq<RoomView>)
    requires
        rooms.len() > 0,
        is_sorted(rooms),
        is_export(rooms),
        room_parts(rooms.last()).len() > 0,
        holds_reachable(tree_of(rooms.drop_last()), rooms.drop_last()),
    ensures
        holds_reachable(tree_of(rooms), rooms),
{
    let n = rooms.len() - 1;
    let front = rooms.drop_last();
    let room = rooms[n];
    let path = room_parts(room);
    let before = tree_of(front);
    let after = tree_of(rooms);
    assert(is_regular(rooms[n]));
    assert(after == tree_with(before, path, room));
    if room_at(before, path) is Some {
        assert(stands_on_the_way(front, path, path.len() as int));
        assert(path.take(path.len() as int) =~= path);
        let j = choose|j: int| 0 <= j < front.len() && room_parts(#[trigger] front[j]) == path;
        assert(rooms[j] == front[j]);
        assert(is_regular(rooms[j]));
        assert(rooms[j].complete_path != rooms[n].complete_path);
    }
    law_insert_needs_parent(before, path);
    lemma_last_reachable(rooms);
    if path.len() > 1 {
        assert(room_at(before, path.drop_last()) is Some <==> is_reachable(
            front,
            path.drop_last(),
        ));
    }
    let inserted = insert_error(before, path) is None;
    assert(inserted == is_reachable(rooms, path));
    assert forall|p: Seq<Seq<char>>| #[trigger] room_at(after, p) is Some <==> is_reachable(
        rooms,
        p,
    ) by {
        if inserted {
            law_insert_then_look(before, path, room, p);
            if p != path {
                lemma_reachable_last(rooms, p);
                assert(room_at(before, p) is Some <==> is_reachable(front, p));
            }
        } else {
            law_failed_insert(before, path, room, p);
            lemma_unreachable_last(rooms, p);
            assert(room_at(before, p) is Some <==> is_reachable(front, p));
        }
    }
    assert forall|i: int|
        0 <= i < rooms.len() && is_reachable(
            rooms,
            room_parts(#[trigger] rooms[i]),
        ) implies is_in_place(after, rooms[i]) by {
        let p = room_parts(rooms[i]);
        if inserted {
            law_insert_then_look(before, path, room, p);
        } else {
            law_failed_insert(before, path, room, p);
        }
        if i < n {
            assert(front[i] == rooms[i]);
            assert(rooms[i].complete_path != rooms[n].complete_path);
            assert(is_regular(rooms[i]));
            if inserted {
                lemma_reachable_last(rooms, p);
            } else {
                lemma_unreachable_last(rooms, p);
            }
            assert(is_in_place(before, front[i]));
        }
    }
}

/// The tree of an export holds exactly the rooms that can be reached: those for
/// which every room on the way is exported too. Each of them stands at its path,
/// in whatever order the rooms came in. All others are left out.
pub proof fn law_reachable_rooms(rooms: Seq<RoomView>, sorted: Seq<RoomView>)
    requires
        is_export(rooms),
        is_stable_sort(rooms, sorted),
    ensures
        holds_reachable(tree_of(sorted), rooms),
{
    lemma_sorted_export(rooms, sorted);
    lemma_tree_holds_reachable(sorted);
    let tree = tree_of(sorted);
    assert forall|path: Seq<Seq<char>>| is_reachable(rooms, path) == #[trigger] is_reachable(
        sorted,
        path,
    ) by {
        lemma_same_reach(rooms, sorted, path);
        lemma_same_reach(sorted, rooms, path);
    }
    assert forall|i: int|
        0 <= i < rooms.len() && is_reachable(
            rooms,
            room_parts(#[trigger] rooms[i]),
        ) implies is_in_place(tree, rooms[i]) by {
        assert(rooms.contains(rooms[i]));
        assert(sorted.contains(rooms[i]));
        let k = choose|k: int| 0 <= k < sorted.len() && sorted[k] == rooms[i];
        assert(is_reachable(sorted, room_parts(sorted[k])));
        assert(is_in_place(tree, sorted[k]));
    }
}

proof fn lemma_same_reach(a: Seq<RoomView>, b: Seq<RoomView>, path: Seq<Seq<char>>)
    requires
        forall|room: RoomView| #[trigger] a.contains(room) <==> b.contains(room),
    ensures
        is_reachable(a, path) ==> is_reachable(b, path),
{
    if is_reachable(a, path) {
        assert forall|k: int| 1 <= k <= path.len() implies #[trigger] stands_on_the_way(
            b,
            path,
            k,
        ) by {
            assert(stands_on_the_way(a, path, k));
            let j = choose|j: int|
                0 <= j < a.len() && room_parts(#[trigger] a[j]) == path.take(k);
            assert(a.contains(a[j]));
            assert(b.contains(a[j]));
            let m = choose|m: int| 0 <= m < b.len() && b[m] == a[j];
            assert(room_parts(b[m]) == path.take(k));
        }
    }
}

proof fn lemma_sorted_export(before: Seq<RoomView>, after: Seq<RoomView>)
    requires
        is_export(before),
        is_stable_sort(before, after),
    ensures
        is_export(after),
        forall|room: RoomView| #[trigger] before.contains(room) <==> after.contains(room),
{
    assert forall|room: RoomView| #[trigger] before.contains(room) <==> after.contains(room) by {
        lemma_sorted_contains(before, after, room);
    }
    assert forall|i: int| 0 <= i < after.len() implies is_regular(#[trigger] after[i]) by {
        assert(after.contains(after[i]));
        assert(before.contains(after[i]));
        let k = choose|k: int| 0 <= k < before.len() && before[k] == after[i];
        assert(is_regular(before[k]));
    }
    assert forall|i: int, j: int|
        0 <= i < j < after.len() && room_parts(#[trigger] after[i]).len()
            > 0 implies after[i].complete_path != (#[trigger] after[j]).complete_path by {
        let path = after[i].complete_path;
        if path == after[j].complete_path {
            lemma_two_with_path(after, i, j);
            assert forall|x: int, y: int| 0 <= x < y < before.len() implies (
            #[trigger] before[x]).complete_path != path || (#[trigger] before[y]).complete_path
                != path by {
                if before[x].complete_path == path {
                    assert(room_parts(before[x]) == room_parts(after[i]));
                }
            }
            lemma_one_with_path(before, path);
            assert(with_path(after, path) == with_path(before, path));
        }
    }
}

/// The tree of a map of rooms, each regular and with its own path, holds exactly
/// the rooms for which every room on the way is in the map too, each at its path.
/// It does not matter in which order the map is listed.
pub proof fn law_reachable_rooms_of_map(
    hierarchy: Hierarchy,
    rooms: Map<u64, Room>,
    keys: Seq<u64>,
)
    requires
        forall|id: u64| rooms.contains_key(id) ==> is_regular((#[trigger] rooms[id])@),
        have_own_paths(rooms),
        is_hierarchy_of_map(hierarchy, rooms),
        lists_keys(keys, rooms),
    ensures
        holds_reachable(rooms_view(hierarchy.rooms@), rooms_by_keys(keys, rooms)),
{
    let others = choose|others: Seq<u64>| #[trigger]
        lists_keys(others, rooms) && is_hierarchy_of(hierarchy, rooms_by_keys(others, rooms));
    let tree = rooms_view(hierarchy.rooms@);
    let list = rooms_by_keys(keys, rooms);
    let other = rooms_by_keys(others, rooms);
    let sorted = choose|sorted: Seq<RoomView>| #[trigger]
        is_stable_sort(other, sorted) && tree == tree_of(sorted) && messages(hierarchy.errors@)
            == tree_errors(sorted);
    lemma_own_paths_differ(others, rooms);
    assert forall|i: int| 0 <= i < other.len() implies is_regular(#[trigger] other[i]) by {
        assert(others.contains(others[i]));
        assert(other[i] == rooms[others[i]]@);
    }
    assert(is_export(other));
    law_reachable_rooms(other, sorted);
    lemma_listed_rooms(keys, others, rooms);
    lemma_listed_rooms(others, keys, rooms);
    assert forall|path: Seq<Seq<char>>| is_reachable(list, path) == #[trigger] is_reachable(
        other,
        path,
    ) by {
        lemma_same_reach(list, other, path);
        lemma_same_reach(other, list, path);
    }
    assert forall|i: int|
        0 <= i < list.len() && is_reachable(
            list,
            room_parts(#[trigger] list[i]),
        ) implies is_in_place(tree, list[i]) by {
        assert(list.contains(list[i]));
        let k = choose|k: int| 0 <= k < other.len() && other[k] == list[i];
        assert(is_reachable(other, room_parts(other[k])));
    }
}

proof fn lemma_listed_rooms(keys: Seq<u64>, others: Seq<u64>, rooms: Map<u64, Room>)
    requires
        lists_keys(keys, rooms),
        lists_keys(others, rooms),
    ensures
        forall|room: RoomView| #[trigger]
            rooms_by_keys(keys, rooms).contains(room) ==> rooms_by_keys(others, rooms).contains(
                room,
            ),
{
    let list = rooms_by_keys(keys, rooms);
    let other = rooms_by_keys(others, rooms);
    assert forall|room: RoomView| #[trigger] list.contains(room) implies other.contains(room) by {
        let i = choose|i: int| 0 <= i < list.len() && list[i] == room;
        assert(keys.contains(keys[i]));
        assert(others.contains(keys[i]));
        let j = choose|j: int| 0 <= j < others.len() && others[j] == keys[i];
        assert(other[j] == room);
    }
}

}
